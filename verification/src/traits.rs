//! The contract that every replicated type meets, and the errors it reports.

use vstd::prelude::*;
use vstd::string::*;

verus! {

/// What can go wrong in an operation on a replicated value.
#[derive(Debug, Clone, PartialEq, Eq)]
pub enum CrdtError {
    /// A value could not be encoded.
    Serialization(String),
    /// A buffer is malformed or truncated.
    Deserialization(String),
    /// Two values cannot be merged.
    Merge(String),
    /// A value breaks its own invariant.
    Validation(String),
    /// A caller passed something unusable.
    InvalidInput(String),
    /// The library failed.
    Internal(String),
}

impl CrdtError {
    /// What the error says of its cause.
    pub open spec fn detail(&self) -> Seq<char> {
        match self {
            CrdtError::Serialization(m) => m@,
            CrdtError::Deserialization(m) => m@,
            CrdtError::Merge(m) => m@,
            CrdtError::Validation(m) => m@,
            CrdtError::InvalidInput(m) => m@,
            CrdtError::Internal(m) => m@,
        }
    }

    /// The words that name the kind of error.
    pub open spec fn label(&self) -> Seq<char> {
        match self {
            CrdtError::Serialization(_) => "Serialization error: "@,
            CrdtError::Deserialization(_) => "Deserialization error: "@,
            CrdtError::Merge(_) => "Merge error: "@,
            CrdtError::Validation(_) => "Validation error: "@,
            CrdtError::InvalidInput(_) => "Invalid input: "@,
            CrdtError::Internal(_) => "Internal error: "@,
        }
    }

    /// The error as one line of text: its kind, then its cause.
    pub fn to_string(&self) -> (r: String)
        ensures
            r@ == self.label() + self.detail(),
    {
        match self {
            CrdtError::Serialization(m) => String::from_str("Serialization error: ").concat(
                m.as_str(),
            ),
            CrdtError::Deserialization(m) => String::from_str("Deserialization error: ").concat(
                m.as_str(),
            ),
            CrdtError::Merge(m) => String::from_str("Merge error: ").concat(m.as_str()),
            CrdtError::Validation(m) => String::from_str("Validation error: ").concat(m.as_str()),
            CrdtError::InvalidInput(m) => String::from_str("Invalid input: ").concat(m.as_str()),
            CrdtError::Internal(m) => String::from_str("Internal error: ").concat(m.as_str()),
        }
    }
}

/// The error for a buffer that does not hold what it should.
pub fn malformed(what: &str) -> (e: CrdtError)
    ensures
        e is Deserialization,
        e.detail() == what@,
{
    CrdtError::Deserialization(String::from_str(what))
}

/// A reader over the encoding of a replicated value: it borrows the bytes
/// and decodes what is asked of it.
pub trait CrdtReader {
    /// The bytes that the reader borrows.
    spec fn bytes(&self) -> Seq<u8>;

    /// Whether the buffer holds a well-formed encoding.
    spec fn readable(&self) -> bool;

    /// Whether the encoded value is in its empty state.
    spec fn holds_nothing(&self) -> bool;

    /// The bytes that the reader borrows.
    fn buffer(&self) -> (b: &[u8])
        ensures
            b@ == self.bytes(),
    ;

    /// Whether the encoded value is in its empty state; an error for a
    /// buffer that cannot be read.
    fn is_empty(&self) -> (r: Result<bool, CrdtError>)
        ensures
            match r {
                Ok(b) => self.readable() && b == self.holds_nothing(),
                Err(e) => !self.readable() && e is Deserialization,
            },
    ;
}

/// What a replicated value is made of: a state, a merge of states that is
/// idempotent, commutative and associative, and an encoding that reads back
/// to the same state.
pub trait Replica: Sized {
    /// What a value of the type stands for.
    type State;

    /// The invariant of the representation.
    spec fn wf(&self) -> bool;

    /// What the value stands for.
    spec fn state(&self) -> Self::State;

    /// Whether a state is one that a fresh value has.
    spec fn is_initial(s: Self::State) -> bool;

    /// Whether a state is the empty one.
    spec fn blank(s: Self::State) -> bool;

    /// The merge of two states.
    spec fn merged(a: Self::State, b: Self::State) -> Self::State;

    /// Whether the value's length fields fit the wire encoding.
    spec fn encodable(&self) -> bool;

    /// The value on the wire.
    spec fn encoding(&self) -> Seq<u8>;

    /// The state that a buffer holds from its first byte to its last.
    spec fn parse(bytes: Seq<u8>) -> Option<Self::State>;

    /// Merging a value with itself changes nothing.
    proof fn lemma_merge_idempotent(a: Self)
        requires
            a.wf(),
        ensures
            Self::merged(a.state(), a.state()) == a.state(),
    ;

    /// Merging two values gives the same either way round.
    proof fn lemma_merge_commutative(a: Self, b: Self)
        requires
            a.wf(),
            b.wf(),
        ensures
            Self::merged(a.state(), b.state()) == Self::merged(b.state(), a.state()),
    ;

    /// Merging three values gives the same however they are grouped.
    proof fn lemma_merge_associative(a: Self, b: Self, c: Self)
        requires
            a.wf(),
            b.wf(),
            c.wf(),
        ensures
            Self::merged(Self::merged(a.state(), b.state()), c.state()) == Self::merged(
                a.state(),
                Self::merged(b.state(), c.state()),
            ),
    ;

    /// An encoding reads back to the state that was encoded.
    proof fn lemma_round_trip(a: Self)
        requires
            a.wf(),
            a.encodable(),
        ensures
            Self::parse(a.encoding()) == Some(a.state()),
    ;

    /// A value in its initial state.
    fn fresh() -> (r: Self)
        ensures
            r.wf(),
            Self::is_initial(r.state()),
    ;

    /// Merges `other` into this value.
    fn merge(&mut self, other: &Self)
        requires
            old(self).wf(),
            other.wf(),
        ensures
            final(self).wf(),
            final(self).state() == Self::merged(old(self).state(), other.state()),
    ;

    /// Reads the value that a buffer holds from its first byte to its last.
    fn from_bytes(bytes: &[u8]) -> (r: Result<Self, CrdtError>)
        ensures
            match Self::parse(bytes@) {
                Some(s) => r matches Ok(x) && x.wf() && x.state() == s,
                None => r matches Err(e) && e is Deserialization,
            },
    ;


    /// Checks the invariant of the representation.
    fn validate(&self) -> (r: Result<(), CrdtError>)
        ensures
            r is Ok <==> self.wf(),
            r matches Err(e) ==> e is Validation,
    ;

    /// Whether the value is in its empty state.
    fn is_empty(&self) -> (r: bool)
        requires
            self.wf(),
        ensures
            r == Self::blank(self.state()),
    ;

    /// The value on the wire. Reading the bytes back gives the same state.
    fn to_capnp_bytes(&self) -> (r: Vec<u8>)
        requires
            self.wf(),
        ensures
            self.encodable(),
            r@ == self.encoding(),
            Self::parse(r@) == Some(self.state()),
    ;
}

/// A replicated type with its reader: merging straight from encoded buffers
/// agrees with merging the values.
pub trait Crdt: Replica {
    /// The reader over this type's encoding.
    type Reader<'a>: CrdtReader where Self: 'a;

    /// Merges the values that the readers hold into one value: the first
    /// with the second, the result with the third, and so on. No reader
    /// gives a fresh value. It fails exactly where a buffer cannot be read.
    fn merge_from_readers(readers: &[Self::Reader<'_>]) -> (r: Result<Self, CrdtError>)
        ensures
            readers@.len() == 0 ==> (r matches Ok(x) && x.wf() && Self::is_initial(x.state())),
            readers@.len() > 0 ==> match merged_buffers::<Self>(reader_bytes(readers@)) {
                Some(s) => r matches Ok(x) && x.wf() && x.state() == s,
                None => r matches Err(e) && e is Deserialization,
            },
    ;
}

/// The bytes that each reader of a row borrows.
pub open spec fn reader_bytes<R: CrdtReader>(readers: Seq<R>) -> Seq<Seq<u8>> {
    Seq::new(readers.len(), |i: int| readers[i].bytes())
}

/// The merge of the states in a row of buffers, taken from left to right;
/// `None` where the row is empty or one of the buffers cannot be read.
pub open spec fn merged_buffers<C: Replica>(buffers: Seq<Seq<u8>>) -> Option<C::State>
    decreases buffers.len(),
{
    if buffers.len() == 0 {
        None
    } else if buffers.len() == 1 {
        C::parse(buffers[0])
    } else {
        match merged_buffers::<C>(buffers.drop_last()) {
            Some(acc) => match C::parse(buffers.last()) {
                Some(s) => Some(C::merged(acc, s)),
                None => None,
            },
            None => None,
        }
    }
}

/// Once a buffer of a row cannot be read, no longer row can be merged.
pub proof fn lemma_buffers_fail<C: Replica>(buffers: Seq<Seq<u8>>, n: int)
    requires
        1 <= n <= buffers.len(),
        merged_buffers::<C>(buffers.take(n)) is None,
    ensures
        merged_buffers::<C>(buffers) is None,
    decreases buffers.len() - n,
{
    if n < buffers.len() {
        let next = buffers.take(n + 1);
        assert(next.drop_last() =~= buffers.take(n));
        lemma_buffers_fail::<C>(buffers, n + 1);
    } else {
        assert(buffers.take(n) =~= buffers);
    }
}

/// Merging straight from the encodings of two values gives the merge of the
/// two values.
pub proof fn lemma_zero_copy_equivalence<C: Replica>(a: C, b: C)
    requires
        a.wf(),
        a.encodable(),
        b.wf(),
        b.encodable(),
    ensures
        merged_buffers::<C>(seq![a.encoding(), b.encoding()]) == Some(
            C::merged(a.state(), b.state()),
        ),
{
    C::lemma_round_trip(a);
    C::lemma_round_trip(b);
    let row = seq![a.encoding(), b.encoding()];
    assert(row.drop_last() =~= seq![a.encoding()]);
    assert(row.last() == b.encoding());
    assert(merged_buffers::<C>(row.drop_last()) == C::parse(a.encoding()));
}

/// What each buffer of a row holds.
pub open spec fn slice_views(buffers: Seq<&[u8]>) -> Seq<Seq<u8>> {
    Seq::new(buffers.len(), |i: int| buffers[i]@)
}

/// Decodes each buffer and merges the values from left to right.
pub fn merge_slices<C: Replica>(buffers: &[&[u8]]) -> (r: Result<C, CrdtError>)
    ensures
        buffers@.len() == 0 ==> (r matches Ok(x) && x.wf() && C::is_initial(x.state())),
        buffers@.len() > 0 ==> match merged_buffers::<C>(slice_views(buffers@)) {
            Some(s) => r matches Ok(x) && x.wf() && x.state() == s,
            None => r matches Err(e) && e is Deserialization,
        },
{
    let ghost row = slice_views(buffers@);
    let n = buffers.len();
    if n == 0 {
        return Ok(C::fresh());
    }
    proof {
        assert(row.take(1) =~= seq![row[0]]);
    }
    let mut acc = match C::from_bytes(buffers[0]) {
        Ok(first) => first,
        Err(e) => {
            proof {
                lemma_buffers_fail::<C>(row, 1);
            }
            return Err(e);
        },
    };
    let mut i: usize = 1;
    while i < n
        invariant
            1 <= i <= n,
            n == buffers@.len(),
            row == slice_views(buffers@),
            acc.wf(),
            merged_buffers::<C>(row.take(i as int)) == Some(acc.state()),
        decreases n - i,
    {
        proof {
            let next = row.take(i + 1);
            assert(next.drop_last() =~= row.take(i as int));
            assert(next.last() == buffers@[i as int]@);
        }
        match C::from_bytes(buffers[i]) {
            Ok(next) => {
                acc.merge(&next);
            },
            Err(e) => {
                proof {
                    lemma_buffers_fail::<C>(row, i + 1);
                }
                return Err(e);
            },
        }
        i = i + 1;
    }
    proof {
        assert(row.take(n as int) =~= row);
    }
    Ok(acc)
}

/// Decodes the buffer of each reader and merges the values from left to
/// right.
pub fn merge_buffers<C: Replica, R: CrdtReader>(readers: &[R]) -> (r: Result<C, CrdtError>)
    ensures
        readers@.len() == 0 ==> (r matches Ok(x) && x.wf() && C::is_initial(x.state())),
        readers@.len() > 0 ==> match merged_buffers::<C>(reader_bytes(readers@)) {
            Some(s) => r matches Ok(x) && x.wf() && x.state() == s,
            None => r matches Err(e) && e is Deserialization,
        },
{
    let n = readers.len();
    let mut buffers: Vec<&[u8]> = Vec::new();
    let mut i: usize = 0;
    while i < n
        invariant
            i <= n,
            n == readers@.len(),
            buffers@.len() == i,
            forall|j: int| 0 <= j < i ==> (#[trigger] buffers@[j])@ == readers@[j].bytes(),
        decreases n - i,
    {
        buffers.push(readers[i].buffer());
        i = i + 1;
    }
    proof {
        assert(slice_views(buffers@) =~= reader_bytes(readers@));
    }
    merge_slices::<C>(buffers.as_slice())
}

/// Whether the value that a buffer holds is in its empty state.
pub fn buffer_is_empty<C: Replica>(bytes: &[u8]) -> (r: Result<bool, CrdtError>)
    ensures
        match C::parse(bytes@) {
            Some(s) => r == Ok::<bool, CrdtError>(C::blank(s)),
            None => r matches Err(e) && e is Deserialization,
        },
{
    match C::from_bytes(bytes) {
        Ok(value) => Ok(value.is_empty()),
        Err(e) => Err(e),
    }
}

/// The error for a value that breaks its invariant.
pub fn invalid(what: &str) -> (e: CrdtError)
    ensures
        e is Validation,
        e.detail() == what@,
{
    CrdtError::Validation(String::from_str(what))
}

} // verus!
