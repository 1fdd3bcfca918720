use vstd::prelude::*;
use vstd::seq_lib::lemma_flatten_concat;
use vstd::std_specs::convert::FromSpecImpl;
use vstd::std_specs::convert::IntoSpec;

verus! {

/// What gives a region back to wherever it came from.
///
/// A release object keeps a record of the regions it was asked to release.
/// The chain asks each object it holds once, for the region of the node that
/// holds it.
pub trait Release {
    /// The regions that this object has been asked to release, oldest first.
    spec fn released(&self) -> Seq<Seq<u8>>;

    /// Gives `region` back. The request is on record afterwards.
    fn release(&mut self, region: &[u8])
        ensures
            final(self).released() == old(self).released().push(region@),
    ;
}

/// A release object that calls a function with the region.
///
/// Its record holds a region only where the function was called with it and
/// came back.
pub struct ReleaseFn<F: Fn(&[u8])> {
    call: F,
    log: Ghost<Seq<Seq<u8>>>,
}

impl<F: Fn(&[u8])> ReleaseFn<F> {
    /// The function may be called with any region, and every region on
    /// record stands for a call that was made.
    #[verifier::type_invariant]
    spec fn sound(&self) -> bool {
        &&& forall|region: &[u8]| call_requires(self.call, (region,))
        &&& forall|i: int|
            0 <= i < self.log@.len() ==> Self::called(self.call, #[trigger] self.log@[i])
    }

    /// Whether `call` has been called with a region of these `bytes` and has
    /// returned.
    pub open spec fn called(call: F, bytes: Seq<u8>) -> bool {
        exists|region: &[u8]| region@ == bytes && #[trigger] call_ensures(call, (region,), ())
    }

    /// The function that this object calls.
    pub closed spec fn function(&self) -> F {
        self.call
    }

    /// Wraps `call`, which has released nothing so far.
    pub fn new(call: F) -> (r: ReleaseFn<F>)
        requires
            forall|region: &[u8]| call_requires(call, (region,)),
        ensures
            r.released() == Seq::<Seq<u8>>::empty(),
            r.function() == call,
    {
        ReleaseFn { call, log: Ghost(Seq::empty()) }
    }
}

impl<F: Fn(&[u8])> Release for ReleaseFn<F> {
    closed spec fn released(&self) -> Seq<Seq<u8>> {
        self.log@
    }

    /// Calls the function with `region` and puts the region on record.
    fn release(&mut self, region: &[u8])
        ensures
            final(self).function() == old(self).function(),
            Self::called(old(self).function(), region@),
    {
        proof {
            use_type_invariant(&*self);
        }
        (self.call)(region);
        self.log = Ghost(self.log@.push(region@));
    }
}

/// One node of a chain of byte regions.
///
/// A node holds a view of its own region, the object that releases the
/// region if the node owns it, whether that object has been asked to, and the
/// rest of the chain.
pub struct Buffer<'a> {
    data: &'a [u8],
    destructor: Option<Box<dyn Release + 'a>>,
    spent: bool,
    next: Option<Box<Buffer<'a>>>,
}

impl<'a> View for Buffer<'a> {
    type V = Seq<u8>;

    /// The bytes of the whole chain, in chain order.
    open spec fn view(&self) -> Seq<u8> {
        self.regions().flatten()
    }
}

impl<'a> Buffer<'a> {
    /// The regions of the chain, one per node, head first.
    pub closed spec fn regions(&self) -> Seq<Seq<u8>>
        decreases self,
    {
        match self.next {
            None => seq![self.data@],
            Some(next) => seq![self.data@] + next.regions(),
        }
    }

    /// For each node, head first, the release object it holds.
    pub closed spec fn destructors(&self) -> Seq<Option<Box<dyn Release + 'a>>>
        decreases self,
    {
        match self.next {
            None => seq![self.destructor],
            Some(next) => seq![self.destructor] + next.destructors(),
        }
    }

    /// For each node, head first, whether its release object has been asked
    /// to release the node's region.
    pub closed spec fn spent(&self) -> Seq<bool>
        decreases self,
    {
        match self.next {
            None => seq![self.spent],
            Some(next) => seq![self.spent] + next.spent(),
        }
    }

    /// The chain of one node that views `data` and holds `destructor`, not
    /// yet asked.
    pub closed spec fn single(
        data: &'a [u8],
        destructor: Option<Box<dyn Release + 'a>>,
    ) -> Buffer<'a> {
        Buffer { data, destructor, spent: false, next: None }
    }

    /// What a chain of one node is made of.
    pub broadcast proof fn lemma_single(data: &'a [u8], destructor: Option<Box<dyn Release + 'a>>)
        ensures
            #![trigger Buffer::single(data, destructor)]
            Buffer::single(data, destructor).regions() == seq![data@],
            Buffer::single(data, destructor).destructors() == seq![destructor],
            Buffer::single(data, destructor).spent() == seq![false],
            Buffer::single(data, destructor)@ == data@,
    {
        seq![data@].lemma_flatten_one_element();
    }

    /// Whether no node of the chain holds a release object that is still to
    /// be asked.
    pub open spec fn nothing_pending(&self) -> bool {
        forall|i: int|
            0 <= i < self.destructors().len() && self.destructors()[i] is Some
                ==> #[trigger] self.spent()[i]
    }

    /// What releasing does to one node that holds `before` and views
    /// `region`: an object that was not asked yet is asked once, for `region`;
    /// one that was asked is left alone; a node without one stays so.
    pub open spec fn slot_released(
        before: Option<Box<dyn Release + 'a>>,
        was_spent: bool,
        region: Seq<u8>,
        after: Option<Box<dyn Release + 'a>>,
        is_spent: bool,
    ) -> bool {
        match before {
            None => after is None && is_spent == was_spent,
            Some(held) => {
                &&& after matches Some(kept)
                &&& is_spent
                &&& if was_spent {
                    kept == held
                } else {
                    kept.released() == held.released().push(region)
                }
            },
        }
    }

    /// A chain has at least one node, and one release slot and one mark for
    /// each.
    pub proof fn lemma_shape(&self)
        ensures
            self.regions().len() >= 1,
            self.destructors().len() == self.regions().len(),
            self.spent().len() == self.regions().len(),
        decreases self,
    {
        match self.next {
            None => {},
            Some(next) => next.lemma_shape(),
        }
    }

    /// Wraps `data` as a chain of one node that holds `destructor`, which is
    /// not asked anything yet.
    ///
    /// A verified caller does well to bind the option to a local before the
    /// call. Where a boxed object is coerced at the call itself, Verus takes
    /// the result for another object, of whose record nothing is known.
    pub fn new_direct(data: &'a [u8], destructor: Option<Box<dyn Release + 'a>>) -> (b: Buffer<'a>)
        ensures
            b == Buffer::single(data, destructor),
            b.regions() == seq![data@],
            b.destructors() == seq![destructor],
            b.destructors().len() == 1,
            b.destructors()[0] == destructor,
            b.spent() == seq![false],
            b@ == data@,
            b@.len() <= usize::MAX,
    {
        proof {
            Buffer::lemma_single(data, destructor);
            assert(data@.len() == data.len());
        }
        Buffer { data, destructor, spent: false, next: None }
    }

    /// Wraps borrowed bytes as a chain of one node that owns nothing.
    pub fn new(data: &'a [u8]) -> (b: Buffer<'a>)
        ensures
            b == Buffer::single(data, None),
            b.regions() == seq![data@],
            b.destructors() == seq![None::<Box<dyn Release + 'a>>],
            b.spent() == seq![false],
            b@ == data@,
            b@.len() <= usize::MAX,
    {
        Buffer::new_direct(data, None)
    }

    /// The bytes of a chain are those of its head followed by those of its tail.
    proof fn lemma_unfold(&self)
        ensures
            self.next is None ==> self@ == self.data@,
            self.next matches Some(next) ==> self@ == self.data@ + next@,
    {
        seq![self.data@].lemma_flatten_one_element();
        match self.next {
            None => {},
            Some(next) => lemma_flatten_concat(seq![self.data@], next.regions()),
        }
    }

    /// The head node's own region.
    fn to_slice_partial(&self) -> (region: &'a [u8])
        ensures
            region@ == self.regions()[0],
            region@ == self.data@,
    {
        self.data
    }

    /// Converts `buf` into a chain and links it behind the last node of this
    /// chain.
    pub fn append<T: Into<Buffer<'a>>>(&mut self, buf: T)
        ensures
            T::obeys_into_spec() ==> {
                &&& final(self).regions() == old(self).regions() + T::into_spec(buf).regions()
                &&& final(self).destructors() == old(self).destructors() + T::into_spec(
                    buf,
                ).destructors()
                &&& final(self).spent() == old(self).spent() + T::into_spec(buf).spent()
                &&& final(self)@ == old(self)@ + T::into_spec(buf)@
            },
            old(self).regions().is_prefix_of(final(self).regions()),
            old(self).destructors().is_prefix_of(final(self).destructors()),
            old(self).spent().is_prefix_of(final(self).spent()),
            old(self)@.is_prefix_of(final(self)@),
    {
        let tail: Buffer<'a> = buf.into();
        self.append_buffer(tail);
    }

    /// Links `tail` behind the last node of this chain. No release object is
    /// asked anything.
    pub fn append_buffer(&mut self, tail: Buffer<'a>)
        ensures
            final(self).regions() == old(self).regions() + tail.regions(),
            final(self).destructors() == old(self).destructors() + tail.destructors(),
            final(self).spent() == old(self).spent() + tail.spent(),
            final(self)@ == old(self)@ + tail@,
    {
        let ghost mut before: Seq<Seq<u8>> = Seq::empty();
        let ghost mut held: Seq<Option<Box<dyn Release + 'a>>> = Seq::empty();
        let ghost mut marks: Seq<bool> = Seq::empty();
        let ghost end: Buffer<'a> = *final(self);
        let mut node: &mut Buffer<'a> = self;
        while node.next.is_some()
            invariant
                old(self).regions() == before + node.regions(),
                end.regions() == before + final(node).regions(),
                old(self).destructors() == held + node.destructors(),
                end.destructors() == held + final(node).destructors(),
                old(self).spent() == marks + node.spent(),
                end.spent() == marks + final(node).spent(),
            decreases *node,
        {
            proof {
                before = before.push(node.data@);
                held = held.push(node.destructor);
                marks = marks.push(node.spent);
            }
            node = node.next.as_mut().unwrap();
        }
        node.next = Some(Box::new(tail));
        proof {
            assert(end.regions() == old(self).regions() + tail.regions());
            lemma_flatten_concat(old(self).regions(), tail.regions());
        }
    }

    /// Gives up every region that the chain owns.
    ///
    /// Each node that holds a release object which was not asked yet asks it,
    /// once, to release the node's own region, head first, and marks it as
    /// asked. Objects that were asked before are not asked again. The bytes
    /// stay in view; whether they may still be read is up to what the
    /// release objects did.
    pub fn release(&mut self)
        ensures
            final(self).regions() == old(self).regions(),
            final(self)@ == old(self)@,
            final(self).destructors().len() == old(self).destructors().len(),
            final(self).spent().len() == old(self).spent().len(),
            forall|i: int|
                0 <= i < old(self).regions().len() ==> Buffer::slot_released(
                    old(self).destructors()[i],
                    old(self).spent()[i],
                    old(self).regions()[i],
                    #[trigger] final(self).destructors()[i],
                    final(self).spent()[i],
                ),
            final(self).nothing_pending(),
    {
        proof {
            self.lemma_shape();
        }
        let ghost mut before: Seq<Seq<u8>> = Seq::empty();
        let ghost mut held: Seq<Option<Box<dyn Release + 'a>>> = Seq::empty();
        let ghost mut marks: Seq<bool> = Seq::empty();
        let ghost mut kept: Seq<Option<Box<dyn Release + 'a>>> = Seq::empty();
        let ghost mut asked: Seq<bool> = Seq::empty();
        let ghost end: Buffer<'a> = *final(self);
        let mut node: &mut Buffer<'a> = self;
        loop
            invariant_except_break
                old(self).regions() == before + node.regions(),
                old(self).destructors() == held + node.destructors(),
                old(self).spent() == marks + node.spent(),
                end.regions() == before + final(node).regions(),
                end.destructors() == kept + final(node).destructors(),
                end.spent() == asked + final(node).spent(),
                before.len() == held.len() == marks.len() == kept.len() == asked.len(),
                forall|i: int|
                    0 <= i < before.len() ==> Buffer::slot_released(
                        held[i],
                        marks[i],
                        before[i],
                        #[trigger] kept[i],
                        asked[i],
                    ),
            ensures
                end.regions() == old(self).regions(),
                end.destructors().len() == old(self).destructors().len(),
                end.spent().len() == old(self).spent().len(),
                forall|i: int|
                    0 <= i < old(self).regions().len() ==> Buffer::slot_released(
                        old(self).destructors()[i],
                        old(self).spent()[i],
                        old(self).regions()[i],
                        #[trigger] end.destructors()[i],
                        end.spent()[i],
                    ),
            decreases *node,
        {
            let ghost was_held = node.destructor;
            let ghost was_spent = node.spent;
            if !node.spent {
                match node.destructor.as_mut() {
                    Some(destructor) => {
                        destructor.release(node.data);
                        node.spent = true;
                    },
                    None => {},
                }
            }
            assert(Buffer::slot_released(
                was_held,
                was_spent,
                node.data@,
                node.destructor,
                node.spent,
            ));
            if node.next.is_none() {
                break;
            }
            proof {
                before = before.push(node.data@);
                held = held.push(was_held);
                marks = marks.push(was_spent);
                kept = kept.push(node.destructor);
                asked = asked.push(node.spent);
            }
            node = node.next.as_mut().unwrap();
        }
    }

    /// The number of bytes in the whole chain.
    ///
    /// The total has to fit in `usize`. Regions may overlap in memory, so that
    /// each of them exists does not bound their sum.
    pub fn len(&self) -> (size: usize)
        requires
            self@.len() <= usize::MAX,
        ensures
            size == self@.len(),
    {
        let mut size: usize = 0;
        let mut node: &Buffer<'a> = self;
        loop
            invariant_except_break
                size + node@.len() == self@.len(),
            invariant
                self@.len() <= usize::MAX,
            ensures
                size == self@.len(),
            decreases node,
        {
            proof {
                node.lemma_unfold();
            }
            size = size + node.to_slice_partial().len();
            match &node.next {
                None => break,
                Some(next) => {
                    node = next;
                },
            }
        }
        size
    }

    /// The number of bytes in the whole chain, or `None` where that number
    /// does not fit in `usize`.
    pub fn checked_len(&self) -> (size: Option<usize>)
        ensures
            match size {
                Some(n) => n == self@.len(),
                None => self@.len() > usize::MAX,
            },
    {
        let mut size: usize = 0;
        let mut node: &Buffer<'a> = self;
        loop
            invariant_except_break
                size + node@.len() == self@.len(),
            ensures
                size == self@.len(),
            decreases node,
        {
            proof {
                node.lemma_unfold();
            }
            match size.checked_add(node.to_slice_partial().len()) {
                None => return None,
                Some(sum) => {
                    size = sum;
                },
            }
            match &node.next {
                None => break,
                Some(next) => {
                    node = next;
                },
            }
        }
        Some(size)
    }

    /// Copies the bytes of the whole chain, in chain order, into one vector.
    pub fn to_vec(&self) -> (bytes: Vec<u8>)
        ensures
            bytes@ == self@,
    {
        let mut bytes: Vec<u8> = Vec::new();
        let mut node: &Buffer<'a> = self;
        loop
            invariant_except_break
                bytes@ + node@ == self@,
            ensures
                bytes@ == self@,
            decreases node,
        {
            proof {
                node.lemma_unfold();
            }
            bytes.extend_from_slice(node.to_slice_partial());
            match &node.next {
                None => break,
                Some(next) => {
                    node = next;
                },
            }
        }
        bytes
    }
}

impl<'a> From<&'a [u8]> for Buffer<'a> {
    fn from(data: &'a [u8]) -> (b: Buffer<'a>) {
        Buffer::new(data)
    }
}

impl<'a> FromSpecImpl<&'a [u8]> for Buffer<'a> {
    open spec fn obeys_from_spec() -> bool {
        true
    }

    open spec fn from_spec(data: &'a [u8]) -> Buffer<'a> {
        Buffer::single(data, None)
    }
}

} // verus!
