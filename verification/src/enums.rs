//! The kinds of replicated type, by name.

use crate::text::text_same;
use crate::traits::CrdtError;
use vstd::prelude::*;
use vstd::string::*;

verus! {

/// The kinds of replicated type.
#[derive(Debug, Clone, Copy, PartialEq, Eq, Hash, Structural)]
pub enum CrdtType {
    GCounter,
    PNCounter,
    GSet,
    ORSet,
    LWWSet,
    LWWRegister,
    FWWRegister,
    MVRegister,
    LWWMap,
    ORMap,
}

/// The kinds of approximate replicated type.
#[derive(Debug, Clone, Copy, PartialEq, Eq, Hash, Structural)]
pub enum ProbabilisticCrdtType {
    HyperLogLog,
    CountMinSketch,
    RoaringBitmap,
    TDigest,
    TopK,
}

/// The lower-case text of a text. It stands for `str::to_lowercase`.
pub uninterp spec fn lowercase(s: Seq<char>) -> Seq<char>;

/// A text without its underscores.
pub open spec fn unscored(s: Seq<char>) -> Seq<char> {
    s.filter(|c: char| c != '_')
}

/// The form in which a name is looked up: without underscores, in lower case.
pub open spec fn normalized(s: Seq<char>) -> Seq<char> {
    lowercase(unscored(s))
}

/// `str::replace`, called to replace each underscore by nothing: the text
/// without its underscores.
#[verifier::external_body]
fn strip_underscores(s: &str) -> (r: String)
    ensures
        r@ == unscored(s@),
{
    s.replace('_', "")
}

/// `str::to_lowercase`: the lower-case form of a text.
#[verifier::external_body]
fn to_lowercase(s: &str) -> (r: String)
    ensures
        r@ == lowercase(s@),
{
    s.to_lowercase()
}

/// A name without underscores and in lower case.
pub fn normalize(s: &str) -> (r: String)
    ensures
        r@ == normalized(s@),
{
    let stripped = strip_underscores(s);
    to_lowercase(stripped.as_str())
}

impl CrdtType {
    /// The name of the kind.
    pub open spec fn name(&self) -> Seq<char> {
        match self {
            CrdtType::GCounter => "GCounter"@,
            CrdtType::PNCounter => "PNCounter"@,
            CrdtType::GSet => "GSet"@,
            CrdtType::ORSet => "ORSet"@,
            CrdtType::LWWSet => "LWWSet"@,
            CrdtType::LWWRegister => "LWWRegister"@,
            CrdtType::FWWRegister => "FWWRegister"@,
            CrdtType::MVRegister => "MVRegister"@,
            CrdtType::LWWMap => "LWWMap"@,
            CrdtType::ORMap => "ORMap"@,
        }
    }

    /// The kind that a normalized name stands for.
    pub open spec fn of_normalized(s: Seq<char>) -> Option<CrdtType> {
        if s == "gcounter"@ {
            Some(CrdtType::GCounter)
        } else if s == "pncounter"@ {
            Some(CrdtType::PNCounter)
        } else if s == "gset"@ {
            Some(CrdtType::GSet)
        } else if s == "orset"@ {
            Some(CrdtType::ORSet)
        } else if s == "lwwset"@ {
            Some(CrdtType::LWWSet)
        } else if s == "lwwregister"@ {
            Some(CrdtType::LWWRegister)
        } else if s == "fwwregister"@ {
            Some(CrdtType::FWWRegister)
        } else if s == "mvregister"@ {
            Some(CrdtType::MVRegister)
        } else if s == "lwwmap"@ {
            Some(CrdtType::LWWMap)
        } else if s == "ormap"@ {
            Some(CrdtType::ORMap)
        } else {
            None
        }
    }

    /// The kind that an exact name stands for.
    pub open spec fn of_exact(s: Seq<char>) -> Option<CrdtType> {
        if s == "GCounter"@ {
            Some(CrdtType::GCounter)
        } else if s == "PNCounter"@ {
            Some(CrdtType::PNCounter)
        } else if s == "GSet"@ {
            Some(CrdtType::GSet)
        } else if s == "ORSet"@ {
            Some(CrdtType::ORSet)
        } else if s == "LWWSet"@ {
            Some(CrdtType::LWWSet)
        } else if s == "LWWRegister"@ {
            Some(CrdtType::LWWRegister)
        } else if s == "FWWRegister"@ {
            Some(CrdtType::FWWRegister)
        } else if s == "MVRegister"@ {
            Some(CrdtType::MVRegister)
        } else if s == "LWWMap"@ {
            Some(CrdtType::LWWMap)
        } else if s == "ORMap"@ {
            Some(CrdtType::ORMap)
        } else {
            None
        }
    }

    /// The name of the kind.
    pub fn as_str(&self) -> (r: &'static str)
        ensures
            r@ == self.name(),
    {
        match self {
            CrdtType::GCounter => "GCounter",
            CrdtType::PNCounter => "PNCounter",
            CrdtType::GSet => "GSet",
            CrdtType::ORSet => "ORSet",
            CrdtType::LWWSet => "LWWSet",
            CrdtType::LWWRegister => "LWWRegister",
            CrdtType::FWWRegister => "FWWRegister",
            CrdtType::MVRegister => "MVRegister",
            CrdtType::LWWMap => "LWWMap",
            CrdtType::ORMap => "ORMap",
        }
    }

    /// The name of the kind as an owned string.
    pub fn to_string(&self) -> (r: String)
        ensures
            r@ == self.name(),
    {
        self.as_str().to_owned()
    }

    /// The kind that a name in normalized form stands for.
    pub fn from_normalized(name: &str) -> (r: Option<CrdtType>)
        ensures
            r == Self::of_normalized(name@),
    {
        if text_same(name, "gcounter") {
            Some(CrdtType::GCounter)
        } else if text_same(name, "pncounter") {
            Some(CrdtType::PNCounter)
        } else if text_same(name, "gset") {
            Some(CrdtType::GSet)
        } else if text_same(name, "orset") {
            Some(CrdtType::ORSet)
        } else if text_same(name, "lwwset") {
            Some(CrdtType::LWWSet)
        } else if text_same(name, "lwwregister") {
            Some(CrdtType::LWWRegister)
        } else if text_same(name, "fwwregister") {
            Some(CrdtType::FWWRegister)
        } else if text_same(name, "mvregister") {
            Some(CrdtType::MVRegister)
        } else if text_same(name, "lwwmap") {
            Some(CrdtType::LWWMap)
        } else if text_same(name, "ormap") {
            Some(CrdtType::ORMap)
        } else {
            None
        }
    }

    /// The kind that an exact name stands for.
    pub fn from_exact(name: &str) -> (r: Option<CrdtType>)
        ensures
            r == Self::of_exact(name@),
    {
        if text_same(name, "GCounter") {
            Some(CrdtType::GCounter)
        } else if text_same(name, "PNCounter") {
            Some(CrdtType::PNCounter)
        } else if text_same(name, "GSet") {
            Some(CrdtType::GSet)
        } else if text_same(name, "ORSet") {
            Some(CrdtType::ORSet)
        } else if text_same(name, "LWWSet") {
            Some(CrdtType::LWWSet)
        } else if text_same(name, "LWWRegister") {
            Some(CrdtType::LWWRegister)
        } else if text_same(name, "FWWRegister") {
            Some(CrdtType::FWWRegister)
        } else if text_same(name, "MVRegister") {
            Some(CrdtType::MVRegister)
        } else if text_same(name, "LWWMap") {
            Some(CrdtType::LWWMap)
        } else if text_same(name, "ORMap") {
            Some(CrdtType::ORMap)
        } else {
            None
        }
    }

    /// The kind that a name stands for, whatever its case and underscores.
    pub fn parse(s: &str) -> (r: Result<CrdtType, CrdtError>)
        ensures
            match Self::of_normalized(normalized(s@)) {
                Some(kind) => r == Ok::<CrdtType, CrdtError>(kind),
                None => r matches Err(e) && e is InvalidInput,
            },
    {
        let name = normalize(s);
        match Self::from_normalized(name.as_str()) {
            Some(kind) => Ok(kind),
            None => Err(
                CrdtError::InvalidInput(String::from_str("Unknown CRDT type: ").concat(s)),
            ),
        }
    }
}

impl std::str::FromStr for CrdtType {
    type Err = CrdtError;

    /// The kind that a name stands for, whatever its case and underscores.
    fn from_str(s: &str) -> (r: Result<Self, CrdtError>)
        ensures
            match CrdtType::of_normalized(normalized(s@)) {
                Some(kind) => r == Ok::<CrdtType, CrdtError>(kind),
                None => r matches Err(e) && e is InvalidInput,
            },
    {
        CrdtType::parse(s)
    }
}

impl ProbabilisticCrdtType {
    /// The name of the kind.
    pub open spec fn name(&self) -> Seq<char> {
        match self {
            ProbabilisticCrdtType::HyperLogLog => "HyperLogLog"@,
            ProbabilisticCrdtType::CountMinSketch => "CountMinSketch"@,
            ProbabilisticCrdtType::RoaringBitmap => "RoaringBitmap"@,
            ProbabilisticCrdtType::TDigest => "TDigest"@,
            ProbabilisticCrdtType::TopK => "TopK"@,
        }
    }

    /// The kind that a normalized name stands for.
    pub open spec fn of_normalized(s: Seq<char>) -> Option<ProbabilisticCrdtType> {
        if s == "hyperloglog"@ {
            Some(ProbabilisticCrdtType::HyperLogLog)
        } else if s == "countminsketch"@ {
            Some(ProbabilisticCrdtType::CountMinSketch)
        } else if s == "roaringbitmap"@ {
            Some(ProbabilisticCrdtType::RoaringBitmap)
        } else if s == "tdigest"@ {
            Some(ProbabilisticCrdtType::TDigest)
        } else if s == "topk"@ {
            Some(ProbabilisticCrdtType::TopK)
        } else {
            None
        }
    }

    /// The name of the kind.
    pub fn as_str(&self) -> (r: &'static str)
        ensures
            r@ == self.name(),
    {
        match self {
            ProbabilisticCrdtType::HyperLogLog => "HyperLogLog",
            ProbabilisticCrdtType::CountMinSketch => "CountMinSketch",
            ProbabilisticCrdtType::RoaringBitmap => "RoaringBitmap",
            ProbabilisticCrdtType::TDigest => "TDigest",
            ProbabilisticCrdtType::TopK => "TopK",
        }
    }

    /// The name of the kind as an owned string.
    pub fn to_string(&self) -> (r: String)
        ensures
            r@ == self.name(),
    {
        self.as_str().to_owned()
    }

    /// The kind that a name in normalized form stands for.
    pub fn from_normalized(name: &str) -> (r: Option<ProbabilisticCrdtType>)
        ensures
            r == Self::of_normalized(name@),
    {
        if text_same(name, "hyperloglog") {
            Some(ProbabilisticCrdtType::HyperLogLog)
        } else if text_same(name, "countminsketch") {
            Some(ProbabilisticCrdtType::CountMinSketch)
        } else if text_same(name, "roaringbitmap") {
            Some(ProbabilisticCrdtType::RoaringBitmap)
        } else if text_same(name, "tdigest") {
            Some(ProbabilisticCrdtType::TDigest)
        } else if text_same(name, "topk") {
            Some(ProbabilisticCrdtType::TopK)
        } else {
            None
        }
    }

    /// The kind that a name stands for, whatever its case and underscores.
    pub fn parse(s: &str) -> (r: Result<ProbabilisticCrdtType, CrdtError>)
        ensures
            match Self::of_normalized(normalized(s@)) {
                Some(kind) => r == Ok::<ProbabilisticCrdtType, CrdtError>(kind),
                None => r matches Err(e) && e is InvalidInput,
            },
    {
        let name = normalize(s);
        match Self::from_normalized(name.as_str()) {
            Some(kind) => Ok(kind),
            None => Err(
                CrdtError::InvalidInput(
                    String::from_str("Unknown Probabilistic CRDT type: ").concat(s),
                ),
            ),
        }
    }
}

impl std::str::FromStr for ProbabilisticCrdtType {
    type Err = CrdtError;

    /// The kind that a name stands for, whatever its case and underscores.
    fn from_str(s: &str) -> (r: Result<Self, CrdtError>)
        ensures
            match ProbabilisticCrdtType::of_normalized(normalized(s@)) {
                Some(kind) => r == Ok::<ProbabilisticCrdtType, CrdtError>(kind),
                None => r matches Err(e) && e is InvalidInput,
            },
    {
        ProbabilisticCrdtType::parse(s)
    }
}

} // verus!
