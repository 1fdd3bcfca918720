//! What holds of every chain, proved from the contracts of [`Buffer`]'s
//! operations.
//!
//! Each law takes the values that a run of the operations would produce and
//! assumes of them only what the operations ensure.

use crate::buffer::Buffer;
use crate::buffer::Release;
use vstd::prelude::*;
use vstd::seq_lib::lemma_flatten_concat;

verus! {

/// The sum of the lengths of `regions`.
pub open spec fn total_len(regions: Seq<Seq<u8>>) -> nat
    decreases regions.len(),
{
    if regions.len() == 0 {
        0
    } else {
        total_len(regions.drop_last()) + regions.last().len()
    }
}

/// Where region `i` of `regions` begins in their concatenation.
pub open spec fn start_of(regions: Seq<Seq<u8>>, i: int) -> int {
    total_len(regions.take(i)) as int
}

/// Whether `states` are the successive values of one chain to which the
/// regions `appended` were appended one by one, each as a chain of its own.
pub open spec fn appended_in_turn(states: Seq<Buffer<'_>>, appended: Seq<Seq<u8>>) -> bool {
    &&& states.len() == appended.len() + 1
    &&& forall|i: int|
        0 <= i < appended.len() ==> (#[trigger] states[i + 1]).regions() == states[i].regions()
            + seq![appended[i]]
}

/// The bytes of a chain are as many as its regions hold together.
pub proof fn lemma_len_is_total(chain: Buffer<'_>)
    ensures
        chain@.len() == total_len(chain.regions()),
{
    lemma_flatten_total(chain.regions());
}

/// Flattening keeps every byte: the result is as long as the regions together.
pub proof fn lemma_flatten_total(regions: Seq<Seq<u8>>)
    ensures
        regions.flatten().len() == total_len(regions),
    decreases regions.len(),
{
    if regions.len() > 0 {
        lemma_flatten_total(regions.drop_last());
        assert(regions =~= regions.drop_last().push(regions.last()));
        regions.drop_last().lemma_flatten_push(regions.last());
    }
}

/// Each region stands in the flattened bytes whole and in its place: behind
/// all the bytes of the regions before it.
pub proof fn lemma_region_in_place(chain: Buffer<'_>, i: int)
    requires
        0 <= i < chain.regions().len(),
    ensures
        0 <= start_of(chain.regions(), i),
        start_of(chain.regions(), i) + chain.regions()[i].len() <= chain@.len(),
        chain@.subrange(
            start_of(chain.regions(), i),
            start_of(chain.regions(), i) + chain.regions()[i].len(),
        ) == chain.regions()[i],
{
    let regions = chain.regions();
    let front = regions.take(i);
    let back = regions.skip(i + 1);
    assert(regions =~= front.push(regions[i]) + back);
    lemma_flatten_concat(front.push(regions[i]), back);
    front.lemma_flatten_push(regions[i]);
    lemma_flatten_total(front);
    assert(chain@ =~= front.flatten() + regions[i] + back.flatten());
    assert(chain@.subrange(
        start_of(regions, i),
        start_of(regions, i) + regions[i].len(),
    ) =~= regions[i]);
}

/// A chain made from borrowed bytes is as long as those bytes and flattens
/// to exactly them.
pub proof fn lemma_borrowed_region(data: &[u8], chain: Buffer<'_>, size: usize, bytes: Vec<u8>)
    requires
        chain.regions() == seq![data@],
        size == chain@.len(),
        bytes@ == chain@,
    ensures
        size == data@.len(),
        bytes@ == data@,
{
    seq![data@].lemma_flatten_one_element();
}

/// After any number of appends the chain holds the regions it began with
/// followed by the appended ones in the order of the appends; its length is
/// the sum of all their lengths and its bytes are their concatenation.
pub proof fn lemma_appends_keep_order(states: Seq<Buffer<'_>>, appended: Seq<Seq<u8>>)
    requires
        appended_in_turn(states, appended),
    ensures
        states.last().regions() == states[0].regions() + appended,
        states.last()@ == states[0]@ + appended.flatten(),
        states.last()@.len() == states[0]@.len() + total_len(appended),
    decreases appended.len(),
{
    if appended.len() == 0 {
        assert(states[0].regions() + appended =~= states[0].regions());
        assert(states[0]@ + appended.flatten() =~= states[0]@);
    } else {
        let n = appended.len() as int;
        let earlier = states.drop_last();
        let before = appended.drop_last();
        assert(appended_in_turn(earlier, before)) by {
            assert forall|i: int| 0 <= i < before.len() implies (#[trigger] earlier[i
                + 1]).regions() == earlier[i].regions() + seq![before[i]] by {
                assert(earlier[i + 1] == states[i + 1]);
            }
        }
        lemma_appends_keep_order(earlier, before);
        assert(states[n].regions() == states[n - 1].regions() + seq![appended[n - 1]]);
        assert(earlier.last() == states[n - 1]);
        assert(states.last().regions() =~= states[0].regions() + appended);
        lemma_flatten_concat(states[0].regions(), appended);
        lemma_flatten_total(appended);
    }
}

/// A second append goes behind the first: the bytes read start, first,
/// second.
pub proof fn lemma_append_twice(
    start: Buffer<'_>,
    first: Buffer<'_>,
    after_first: Buffer<'_>,
    second: Buffer<'_>,
    after_second: Buffer<'_>,
)
    requires
        after_first.regions() == start.regions() + first.regions(),
        after_second.regions() == after_first.regions() + second.regions(),
    ensures
        after_second.regions() == start.regions() + first.regions() + second.regions(),
        after_second@ == start@ + first@ + second@,
        after_second@.len() == start@.len() + first@.len() + second@.len(),
{
    lemma_flatten_concat(start.regions(), first.regions());
    lemma_flatten_concat(start.regions() + first.regions(), second.regions());
}

/// Flattening reads the chain and nothing else: two copies taken from the
/// same chain are equal.
pub proof fn lemma_flatten_repeatable(chain: Buffer<'_>, first: Vec<u8>, second: Vec<u8>)
    requires
        first@ == chain@,
        second@ == chain@,
    ensures
        first@ == second@,
        first@.len() == chain@.len(),
{
}

/// Appending a chain without bytes adds nodes and nothing to read.
pub proof fn lemma_append_empty(start: Buffer<'_>, empty: Buffer<'_>, after: Buffer<'_>)
    requires
        empty@.len() == 0,
        after.regions() == start.regions() + empty.regions(),
    ensures
        after@ == start@,
        after@.len() == start@.len(),
        after.regions().len() == start.regions().len() + empty.regions().len(),
{
    lemma_flatten_concat(start.regions(), empty.regions());
    assert(start@ + empty@ =~= start@);
}

/// Whether `after` is what `Buffer::release` may leave of `before`.
pub open spec fn released_from<'a>(before: Buffer<'a>, after: Buffer<'a>) -> bool {
    &&& after.regions() == before.regions()
    &&& after.destructors().len() == before.destructors().len()
    &&& after.spent().len() == before.spent().len()
    &&& forall|i: int|
        0 <= i < before.regions().len() ==> Buffer::slot_released(
            before.destructors()[i],
            before.spent()[i],
            before.regions()[i],
            #[trigger] after.destructors()[i],
            after.spent()[i],
        )
}

/// Releasing a chain of one node asks the node's release object, if it has
/// one, once, for exactly the node's region.
pub proof fn lemma_single_node_released<'a>(
    data: &'a [u8],
    destructor: Option<Box<dyn Release + 'a>>,
    chain: Buffer<'a>,
    after: Buffer<'a>,
)
    requires
        chain == Buffer::single(data, destructor),
        released_from(chain, after),
    ensures
        after.destructors().len() == 1,
        destructor is None ==> after.destructors()[0] is None,
        destructor matches Some(held) ==> (after.destructors()[0] matches Some(kept)
            && kept.released() == held.released().push(data@)),
        after@ == data@,
{
    Buffer::lemma_single(data, destructor);
    assert(Buffer::slot_released(
        chain.destructors()[0],
        chain.spent()[0],
        chain.regions()[0],
        after.destructors()[0],
        after.spent()[0],
    ));
}

/// Releasing asks every release object that was not asked before once, for
/// the region of the node that holds it, and no other; afterwards nothing is
/// left to ask.
pub proof fn lemma_release_asks_each_once<'a>(before: Buffer<'a>, after: Buffer<'a>, i: int)
    requires
        released_from(before, after),
        0 <= i < before.regions().len(),
    ensures
        after.nothing_pending(),
        before.destructors()[i] is None ==> after.destructors()[i] is None,
        before.destructors()[i] matches Some(held) ==> (after.destructors()[i] matches Some(kept)
            && kept.released() == if before.spent()[i] {
            held.released()
        } else {
            held.released().push(before.regions()[i])
        }),
{
    before.lemma_shape();
    assert(Buffer::slot_released(
        before.destructors()[i],
        before.spent()[i],
        before.regions()[i],
        after.destructors()[i],
        after.spent()[i],
    ));
    assert forall|j: int|
        0 <= j < after.destructors().len() && after.destructors()[j] is Some implies #[trigger] after.spent()[j] by {
        assert(Buffer::slot_released(
            before.destructors()[j],
            before.spent()[j],
            before.regions()[j],
            after.destructors()[j],
            after.spent()[j],
        ));
    }
}

/// Releasing a second time asks nobody: every release object is left as the
/// first release left it, with one request on record.
pub proof fn lemma_release_once<'a>(before: Buffer<'a>, released: Buffer<'a>, again: Buffer<'a>)
    requires
        released_from(before, released),
        released_from(released, again),
    ensures
        again.destructors() == released.destructors(),
        again.spent() == released.spent(),
        again@ == released@,
        again.nothing_pending(),
{
    before.lemma_shape();
    released.lemma_shape();
    assert forall|i: int| 0 <= i < released.destructors().len() implies again.destructors()[i]
        == released.destructors()[i] && again.spent()[i] == released.spent()[i] by {
        assert(Buffer::slot_released(
            before.destructors()[i],
            before.spent()[i],
            before.regions()[i],
            released.destructors()[i],
            released.spent()[i],
        ));
        assert(Buffer::slot_released(
            released.destructors()[i],
            released.spent()[i],
            released.regions()[i],
            again.destructors()[i],
            again.spent()[i],
        ));
    }
    assert(again.destructors() =~= released.destructors());
    assert(again.spent() =~= released.spent());
}

/// Appending asks no release object anything: the chain holds the objects
/// of both chains as they came, marked as they were.
pub proof fn lemma_append_asks_nobody<'a>(start: Buffer<'a>, tail: Buffer<'a>, after: Buffer<'a>, i: int)
    requires
        after.destructors() == start.destructors() + tail.destructors(),
        after.spent() == start.spent() + tail.spent(),
        0 <= i < tail.destructors().len(),
    ensures
        after.destructors()[start.destructors().len() + i] == tail.destructors()[i],
        after.spent()[start.spent().len() + i] == tail.spent()[i],
{
    start.lemma_shape();
    tail.lemma_shape();
}

} // verus!
