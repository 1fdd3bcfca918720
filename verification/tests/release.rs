use chained_buffer::{Buffer, Release, ReleaseFn};
use std::cell::{Cell, RefCell};
use std::rc::Rc;

type Seen = Rc<RefCell<Vec<(usize, Vec<u8>)>>>;

fn counter<'a>(fired: &Rc<Cell<usize>>) -> Option<Box<dyn Release + 'a>> {
    let fired = fired.clone();
    Some(Box::new(ReleaseFn::new(move |_region: &[u8]| {
        fired.set(fired.get() + 1)
    })))
}

fn recorder<'a>(seen: &Seen) -> Option<Box<dyn Release + 'a>> {
    let seen = seen.clone();
    Some(Box::new(ReleaseFn::new(move |region: &[u8]| {
        seen.borrow_mut()
            .push((region.as_ptr() as usize, region.to_vec()))
    })))
}

#[test]
fn release_fires_exactly_once() {
    let fired = Rc::new(Cell::new(0));
    let mut buf = Buffer::new_direct(b"owned", counter(&fired));
    assert_eq!(0, fired.get());
    buf.release();
    assert_eq!(1, fired.get());
    buf.release();
    assert_eq!(1, fired.get());
    drop(buf);
    assert_eq!(1, fired.get());
}

#[test]
fn release_fires_once_for_each_node() {
    let head = Rc::new(Cell::new(0));
    let middle = Rc::new(Cell::new(0));
    let last = Rc::new(Cell::new(0));
    let mut buf = Buffer::new_direct(b"ab", counter(&head));
    buf.append(Buffer::new_direct(b"cd", counter(&middle)));
    buf.append(Buffer::new_direct(b"ef", counter(&last)));
    buf.release();
    assert_eq!((1, 1, 1), (head.get(), middle.get(), last.get()));
    buf.release();
    assert_eq!((1, 1, 1), (head.get(), middle.get(), last.get()));
}

#[test]
fn release_counts_three_owned_nodes() {
    let fired = Rc::new(Cell::new(0));
    let mut buf = Buffer::new_direct(b"ab", counter(&fired));
    buf.append(Buffer::new_direct(b"cd", counter(&fired)));
    buf.append(Buffer::new_direct(b"ef", counter(&fired)));
    assert_eq!(0, fired.get());
    buf.release();
    assert_eq!(3, fired.get());
}

#[test]
fn release_skips_borrowed_nodes() {
    let fired = Rc::new(Cell::new(0));
    let mut buf = Buffer::new(b"borrowed");
    buf.append(Buffer::new_direct(b"owned", counter(&fired)));
    buf.append(b"borrowed again" as &[u8]);
    buf.release();
    assert_eq!(1, fired.get());
}

#[test]
fn release_of_a_borrowed_chain_calls_nothing() {
    let mut buf = Buffer::new(b"abc");
    buf.append(b"def" as &[u8]);
    buf.release();
    assert_eq!(6, buf.len());
    assert_eq!(b"abcdef".to_vec(), buf.to_vec());
}

#[test]
fn release_hands_each_node_its_own_region_head_first() {
    let first: &[u8] = b"first";
    let second: &[u8] = b"second";
    let third: &[u8] = b"";
    let seen: Seen = Rc::new(RefCell::new(Vec::new()));
    let mut buf = Buffer::new_direct(first, recorder(&seen));
    buf.append(Buffer::new_direct(second, recorder(&seen)));
    buf.append(Buffer::new_direct(third, recorder(&seen)));
    buf.release();
    let expected = vec![
        (first.as_ptr() as usize, first.to_vec()),
        (second.as_ptr() as usize, second.to_vec()),
        (third.as_ptr() as usize, third.to_vec()),
    ];
    assert_eq!(expected, *seen.borrow());
}

#[test]
fn release_gives_each_region_to_its_own_object() {
    let p: &[u8] = b"pp";
    let q: &[u8] = b"qqq";
    let seen_f: Seen = Rc::new(RefCell::new(Vec::new()));
    let seen_g: Seen = Rc::new(RefCell::new(Vec::new()));
    let mut buf = Buffer::new_direct(p, recorder(&seen_f));
    buf.append(Buffer::new_direct(q, recorder(&seen_g)));
    buf.release();
    assert_eq!(vec![(p.as_ptr() as usize, p.to_vec())], *seen_f.borrow());
    assert_eq!(vec![(q.as_ptr() as usize, q.to_vec())], *seen_g.borrow());
}

#[test]
fn to_vec_len_and_append_release_nothing() {
    let fired = Rc::new(Cell::new(0));
    let mut buf = Buffer::new_direct(b"abc", counter(&fired));
    buf.append(Buffer::new_direct(b"def", counter(&fired)));
    buf.append(b"ghi" as &[u8]);
    assert_eq!(9, buf.len());
    assert_eq!(Some(9), buf.checked_len());
    assert_eq!(buf.to_vec(), buf.to_vec());
    assert_eq!(b"abcdefghi".to_vec(), buf.to_vec());
    assert_eq!(0, fired.get());
    buf.release();
    assert_eq!(2, fired.get());
}

#[test]
fn release_keeps_the_chain_in_shape() {
    let fired = Rc::new(Cell::new(0));
    let mut buf = Buffer::new_direct(b"abc", counter(&fired));
    buf.append(b"def" as &[u8]);
    buf.release();
    assert_eq!(6, buf.len());
    assert_eq!(b"abcdef".to_vec(), buf.to_vec());
    buf.append(Buffer::new_direct(b"ghi", counter(&fired)));
    assert_eq!(9, buf.len());
    assert_eq!(1, fired.get());
    buf.release();
    assert_eq!(2, fired.get());
}

#[test]
fn append_buffer_keeps_the_release_objects_of_the_tail() {
    let fired = Rc::new(Cell::new(0));
    let mut tail = Buffer::new_direct(b"cd", counter(&fired));
    tail.append(Buffer::new_direct(b"ef", counter(&fired)));
    let mut buf = Buffer::new(b"ab");
    buf.append_buffer(tail);
    assert_eq!(0, fired.get());
    buf.release();
    assert_eq!(2, fired.get());
}

#[test]
fn a_released_tail_is_not_asked_again_after_append() {
    let fired = Rc::new(Cell::new(0));
    let mut tail = Buffer::new_direct(b"cd", counter(&fired));
    tail.release();
    assert_eq!(1, fired.get());
    let mut buf = Buffer::new_direct(b"ab", counter(&fired));
    buf.append_buffer(tail);
    buf.release();
    assert_eq!(2, fired.get());
}

#[test]
fn a_dropped_chain_asks_nobody() {
    let fired = Rc::new(Cell::new(0));
    let buf = Buffer::new_direct(b"owned", counter(&fired));
    drop(buf);
    assert_eq!(0, fired.get());
}

#[test]
fn release_fn_calls_the_function_with_the_region() {
    let seen: Seen = Rc::new(RefCell::new(Vec::new()));
    let log = seen.clone();
    let mut object = ReleaseFn::new(move |region: &[u8]| {
        log.borrow_mut()
            .push((region.as_ptr() as usize, region.to_vec()))
    });
    let region: &[u8] = b"xyz";
    object.release(region);
    assert_eq!(vec![(region.as_ptr() as usize, b"xyz".to_vec())], *seen.borrow());
}
