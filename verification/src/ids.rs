use vstd::prelude::*;
use vstd::string::*;

verus! {

/// Identifier of a model (for example `qwen9b`).
#[derive(Debug, PartialEq, Eq, Hash, PartialOrd, Ord)]
pub struct ModelId(pub String);

/// Identifier of a runtime (for example `llama_swap`).
#[derive(Debug, PartialEq, Eq, Hash, PartialOrd, Ord)]
pub struct RuntimeId(pub String);

/// Identifier of a request domain (for example `coding`).
#[derive(Debug, PartialEq, Eq, Hash, PartialOrd, Ord)]
pub struct DomainId(pub String);

/// Identifier of a residency group, also called a roster.
#[derive(Debug, PartialEq, Eq, Hash, PartialOrd, Ord)]
pub struct ResidencyGroupId(pub String);

/// Identifier of an inference request.
#[derive(Debug, PartialEq, Eq, Hash, PartialOrd, Ord)]
pub struct RequestId(pub String);

impl View for ModelId {
    type V = Seq<char>;

    open spec fn view(&self) -> Seq<char> {
        self.0@
    }
}

impl View for RuntimeId {
    type V = Seq<char>;

    open spec fn view(&self) -> Seq<char> {
        self.0@
    }
}

impl View for DomainId {
    type V = Seq<char>;

    open spec fn view(&self) -> Seq<char> {
        self.0@
    }
}

impl View for ResidencyGroupId {
    type V = Seq<char>;

    open spec fn view(&self) -> Seq<char> {
        self.0@
    }
}

impl View for RequestId {
    type V = Seq<char>;

    open spec fn view(&self) -> Seq<char> {
        self.0@
    }
}

impl Clone for ModelId {
    fn clone(&self) -> (r: Self)
        ensures
            r == *self,
    {
        ModelId(self.0.clone())
    }
}

impl Clone for RuntimeId {
    fn clone(&self) -> (r: Self)
        ensures
            r == *self,
    {
        RuntimeId(self.0.clone())
    }
}

impl Clone for DomainId {
    fn clone(&self) -> (r: Self)
        ensures
            r == *self,
    {
        DomainId(self.0.clone())
    }
}

impl Clone for ResidencyGroupId {
    fn clone(&self) -> (r: Self)
        ensures
            r == *self,
    {
        ResidencyGroupId(self.0.clone())
    }
}

impl Clone for RequestId {
    fn clone(&self) -> (r: Self)
        ensures
            r == *self,
    {
        RequestId(self.0.clone())
    }
}

impl ModelId {
    /// Whether two model ids name the same model.
    pub fn same(&self, other: &ModelId) -> (r: bool)
        ensures
            r == (self@ == other@),
    {
        self.0 == other.0
    }

    /// The id as a string slice.
    pub fn as_str(&self) -> (r: &str)
        ensures
            r@ == self@,
    {
        self.0.as_str()
    }
}

impl RuntimeId {
    /// Whether two runtime ids name the same runtime.
    pub fn same(&self, other: &RuntimeId) -> (r: bool)
        ensures
            r == (self@ == other@),
    {
        self.0 == other.0
    }

    /// The id as a string slice.
    pub fn as_str(&self) -> (r: &str)
        ensures
            r@ == self@,
    {
        self.0.as_str()
    }
}

impl DomainId {
    /// Whether two domain ids name the same domain.
    pub fn same(&self, other: &DomainId) -> (r: bool)
        ensures
            r == (self@ == other@),
    {
        self.0 == other.0
    }

    /// The id as a string slice.
    pub fn as_str(&self) -> (r: &str)
        ensures
            r@ == self@,
    {
        self.0.as_str()
    }
}

impl ResidencyGroupId {
    /// Whether two group ids name the same group.
    pub fn same(&self, other: &ResidencyGroupId) -> (r: bool)
        ensures
            r == (self@ == other@),
    {
        self.0 == other.0
    }

    /// The id as a string slice.
    pub fn as_str(&self) -> (r: &str)
        ensures
            r@ == self@,
    {
        self.0.as_str()
    }
}

/// Sixteen to the power `n`.
pub open spec fn pow16(n: nat) -> nat
    decreases n,
{
    if n == 0 { 1 } else { 16 * pow16((n - 1) as nat) }
}

/// The lower-case hexadecimal digit for `d` (below 16).
pub open spec fn hex_digit(d: nat) -> char {
    if d < 10 { (('0' as nat) + d) as char } else { (('a' as nat) + (d - 10)) as char }
}

/// The 32 lower-case hexadecimal digits of `v`, most significant first.
pub open spec fn hex32(v: nat) -> Seq<char> {
    Seq::new(32, |i: int| hex_digit((v / pow16((31 - i) as nat)) % 16))
}

/// The hyphenated text of the UUID with bits `v`: its 32 hex digits, most
/// significant first, with a hyphen after the 8th, 12th, 16th and 20th.
pub open spec fn spec_uuid_text(v: nat) -> Seq<char> {
    let h = hex32(v);
    h.subrange(0, 8) + seq!['-'] + h.subrange(8, 12) + seq!['-'] + h.subrange(12, 16) + seq!['-']
        + h.subrange(16, 20) + seq!['-'] + h.subrange(20, 32)
}

/// Renders the UUID with bits `v` (`uuid::Uuid::from_u128`, which keeps the
/// bits as they are, most significant byte first) with its `Display` impl,
/// which writes the hyphenated lower-case form (`fmt::LowerHex` of
/// `as_hyphenated`: each byte as two hex digits, hyphens after bytes 4, 6,
/// 8 and 10).
#[verifier::external_body]
fn uuid_text(v: u128) -> (r: String)
    ensures
        r@ == spec_uuid_text(v as nat),
{
    uuid::Uuid::from_u128(v).to_string()
}

impl RequestId {
    /// The request id of a freshly drawn identifier with bits `v`: its
    /// hyphenated text.
    pub fn new(v: u128) -> (r: RequestId)
        ensures
            r@ == spec_uuid_text(v as nat),
    {
        RequestId(uuid_text(v))
    }
}

} // verus!
