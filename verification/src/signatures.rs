//! Signatures: the named text blocks that a mail program keeps.
//!
//! The library builds the signatures and their names; storing them is the
//! caller's business.

use vstd::prelude::*;
use vstd::string::StringExecFns;

verus! {

/// A signature: the name under which it is kept, and its content.
#[derive(Debug, PartialEq, Eq)]
pub struct Signature {
    name: String,
    content: String,
}

/// What a `Signature` stands for: the characters of its name and content.
pub struct SignatureView {
    pub name: Seq<char>,
    pub content: Seq<char>,
}

impl View for Signature {
    type V = SignatureView;

    closed spec fn view(&self) -> SignatureView {
        SignatureView { name: self.name@, content: self.content@ }
    }
}

/// `signature` with `prefix` put before its name.
pub open spec fn prefixed(prefix: Seq<char>, signature: SignatureView) -> SignatureView {
    SignatureView { name: prefix + signature.name, content: signature.content }
}

impl Signature {
    /// The signature with the given name and content.
    pub fn new(name: &str, content: &str) -> (s: Self)
        ensures
            s@ == (SignatureView { name: name@, content: content@ }),
    {
        Self { name: String::from_str(name), content: String::from_str(content) }
    }

    /// This signature with `prefix` put before its name.
    pub fn with_prefix(self, prefix: &str) -> (s: Self)
        ensures
            s@ == prefixed(prefix@, self@),
    {
        let mut name = String::from_str(prefix);
        name.append(self.name.as_str());
        Self { name, content: self.content }
    }

    /// The name of this signature.
    pub fn name(&self) -> (r: &str)
        ensures
            r@ == self@.name,
    {
        self.name.as_str()
    }

    /// The content of this signature.
    pub fn content(&self) -> (r: &str)
        ensures
            r@ == self@.content,
    {
        self.content.as_str()
    }
}

/// The views of a vector of signatures, in order.
pub open spec fn views(signatures: Seq<Signature>) -> Seq<SignatureView> {
    signatures.map_values(|s: Signature| s@)
}

/// The given signatures, in order, each with `prefix` put before its
/// name: what is handed to the store when signatures are added.
pub fn with_prefixes(prefix: &str, signatures: Vec<Signature>) -> (r: Vec<Signature>)
    ensures
        views(r@) == views(signatures@).map_values(|s: SignatureView| prefixed(prefix@, s)),
{
    let ghost all = signatures@;
    let mut r: Vec<Signature> = Vec::new();
    for s in it: signatures
        invariant
            it.seq() == all,
            views(r@) == views(all.take(it.index())).map_values(
                |s: SignatureView| prefixed(prefix@, s),
            ),
    {
        let ghost before = all.take(it.index());
        let ghost renamed = views(before).map_values(|s: SignatureView| prefixed(prefix@, s));
        proof {
            assert(all.take(it.index() + 1) =~= before.push(s));
            assert(views(before.push(s)) =~= views(before).push(s@));
            assert(views(before).push(s@).map_values(|s: SignatureView| prefixed(prefix@, s))
                =~= renamed.push(prefixed(prefix@, s@)));
        }
        let renamed_one = s.with_prefix(prefix);
        assert(views(r@.push(renamed_one)) =~= views(r@).push(renamed_one@));
        r.push(renamed_one);
    }
    assert(all.take(all.len() as int) =~= all);
    r
}

} // verus!
