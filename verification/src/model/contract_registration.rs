//! Rules on the names of newly registered contracts and on state digests.

use crate::model::{ContractName, StateDigest};
use vstd::prelude::*;
use vstd::string::StrSliceExecFns;
use vstd::utf8::{encode_utf8, is_char_boundary};

verus! {

/// The byte of '.'.
pub open spec fn dot() -> u8 {
    46
}

/// The bytes of "hyle".
pub open spec fn hyle_bytes() -> Seq<u8> {
    seq![104u8, 121u8, 108u8, 101u8]
}

/// Splitting `s` at each '.' gives at least one empty part.
pub open spec fn has_empty_segment(s: Seq<u8>) -> bool {
    ||| s.len() == 0
    ||| s[0] == dot()
    ||| s.last() == dot()
    ||| exists|i: int| 0 <= i < s.len() - 1 && #[trigger] s[i] == dot() && s[i + 1] == dot()
}

/// `s` ends with `suffix`.
pub open spec fn ends_with(s: Seq<u8>, suffix: Seq<u8>) -> bool {
    suffix.len() <= s.len() && s.subrange(s.len() - suffix.len(), s.len() as int) == suffix
}

/// Why a contract name may not be registered by an owner.
#[derive(Debug, Clone, Copy, PartialEq, Eq)]
pub enum ContractNameError {
    /// The owner's name is empty.
    EmptyOwner,
    /// The 'hyle' contract cannot be updated.
    CannotUpdateHyle,
    /// The new name does not end with '.' and the owner's name.
    NotASubdomain,
    /// The owner's name is not preceded by a '.' in the new name.
    NoSeparator,
    /// A part of the new name before the owner's name is empty.
    EmptySubdomain,
}

/// Why a state digest is refused.
#[derive(Debug, Clone, Copy, PartialEq, Eq)]
pub enum StateDigestError {
    /// The digest is longer than the maximum size.
    TooLong,
}

/// Largest state digest accepted, in bytes.
pub const MAX_STATE_DIGEST_SIZE: usize = 10485760;

/// Whether `owner` may register (or update) a contract called `new`, from
/// the characters of both names.
///
/// 'hyle' may register any non-empty top-level name (without '.'), but not
/// itself; any other owner may update its own contract; otherwise the new
/// name must be a subdomain of the owner's: a non-empty prefix whose
/// '.'-separated parts are all non-empty, a '.', then the owner's name.
pub open spec fn spec_validate_name(owner: Seq<char>, new: Seq<char>) -> Result<(), ContractNameError> {
    let ob = encode_utf8(owner);
    let nb = encode_utf8(new);
    if ob.len() == 0 {
        Err(ContractNameError::EmptyOwner)
    } else if ob == hyle_bytes() && nb == hyle_bytes() {
        Err(ContractNameError::CannotUpdateHyle)
    } else if ob == hyle_bytes() && nb.len() > 0 && !nb.contains(dot()) {
        Ok(())
    } else if ob != hyle_bytes() && owner == new {
        Ok(())
    } else if nb.len() <= ob.len() + 1 || !ends_with(nb, ob) {
        Err(ContractNameError::NotASubdomain)
    } else if !is_char_boundary(nb, nb.len() - ob.len() - 1) || nb[nb.len() - ob.len() - 1] != dot() {
        Err(ContractNameError::NoSeparator)
    } else if has_empty_segment(nb.subrange(0, nb.len() - ob.len() - 1)) {
        Err(ContractNameError::EmptySubdomain)
    } else {
        Ok(())
    }
}

fn is_hyle(a: &[u8]) -> (res: bool)
    ensures
        res == (a@ == hyle_bytes()),
{
    let res = a.len() == 4 && a[0] == 104u8 && a[1] == 121u8 && a[2] == 108u8 && a[3] == 101u8;
    proof {
        if res {
            assert(a@ =~= hyle_bytes());
        }
    }
    res
}

fn contains_dot(a: &[u8]) -> (res: bool)
    ensures
        res == a@.contains(dot()),
{
    let mut i: usize = 0;
    while i < a.len()
        invariant
            i <= a@.len(),
            forall|j: int| 0 <= j < i ==> a@[j] != dot(),
        decreases a@.len() - i,
    {
        if a[i] == 46u8 {
            assert(a@[i as int] == dot());
            return true;
        }
        i = i + 1;
    }
    false
}

fn ends_with_bytes(s: &[u8], suffix: &[u8]) -> (res: bool)
    ensures
        res == ends_with(s@, suffix@),
{
    if suffix.len() > s.len() {
        return false;
    }
    let slen = s.len();
    let off = slen - suffix.len();
    let mut i: usize = 0;
    while i < suffix.len()
        invariant
            off + suffix@.len() == s@.len(),
            s@.len() == slen,
            i <= suffix@.len(),
            forall|j: int| 0 <= j < i ==> s@[off + j] == suffix@[j],
        decreases suffix@.len() - i,
    {
        if s[off + i] != suffix[i] {
            assert(s@.subrange(off as int, s@.len() as int)[i as int] != suffix@[i as int]);
            return false;
        }
        i = i + 1;
    }
    assert(s@.subrange(off as int, s@.len() as int) =~= suffix@);
    true
}

/// Whether the first `len` bytes of `s` split at '.' give an empty part.
fn prefix_has_empty_segment(s: &[u8], len: usize) -> (res: bool)
    requires
        len <= s@.len(),
    ensures
        res == has_empty_segment(s@.subrange(0, len as int)),
{
    let ghost p = s@.subrange(0, len as int);
    if len == 0 || s[0] == 46u8 || s[len - 1] == 46u8 {
        return true;
    }
    let mut i: usize = 0;
    while i + 1 < len
        invariant
            len <= s@.len(),
            p == s@.subrange(0, len as int),
            i < len,
            forall|j: int| 0 <= j < i ==> !(#[trigger] p[j] == dot() && p[j + 1] == dot()),
        decreases len - i,
    {
        if s[i] == 46u8 && s[i + 1] == 46u8 {
            assert(p[i as int] == dot() && p[i + 1] == dot());
            return true;
        }
        i = i + 1;
    }
    false
}

/// Checks that `new_contract_name` is a subdomain of `owner` (including
/// sub-subdomains), or `owner` itself for an update; 'hyle' may also
/// register new top-level names.
pub fn validate_contract_name_registration(
    owner: &ContractName,
    new_contract_name: &ContractName,
) -> (res: Result<(), ContractNameError>)
    ensures
        res == spec_validate_name(owner@, new_contract_name@),
{
    let o = owner.0.as_str().as_bytes();
    let n = new_contract_name.0.as_str().as_bytes();
    if o.len() == 0 {
        return Err(ContractNameError::EmptyOwner);
    }
    let owner_is_hyle = is_hyle(o);
    if owner_is_hyle {
        if is_hyle(n) {
            return Err(ContractNameError::CannotUpdateHyle);
        } else if n.len() > 0 && !contains_dot(n) {
            return Ok(());
        }
    } else if owner.0 == new_contract_name.0 {
        return Ok(());
    }
    if n.len() <= o.len() || n.len() - o.len() <= 1 || !ends_with_bytes(n, o) {
        return Err(ContractNameError::NotASubdomain);
    }
    let split = n.len() - o.len() - 1;
    if !new_contract_name.0.as_str().is_char_boundary(split) || n[split] != 46u8 {
        return Err(ContractNameError::NoSeparator);
    }
    if prefix_has_empty_segment(n, split) {
        return Err(ContractNameError::EmptySubdomain);
    }
    Ok(())
}

/// Checks that a state digest is at most `MAX_STATE_DIGEST_SIZE` bytes long.
pub fn validate_state_digest_size(state_digest: &StateDigest) -> (res: Result<(), StateDigestError>)
    ensures
        res is Ok <==> state_digest@.len() <= MAX_STATE_DIGEST_SIZE,
        res matches Err(e) ==> e == StateDigestError::TooLong,
{
    if state_digest.0.len() > MAX_STATE_DIGEST_SIZE {
        return Err(StateDigestError::TooLong);
    }
    Ok(())
}

/// Some name of `names` has the characters `s`.
pub open spec fn names_contain(names: Seq<ContractName>, s: Seq<char>) -> bool {
    exists|i: int| 0 <= i < names.len() && #[trigger] names[i]@ == s
}

/// Every parent domain of `name` (what follows each '.') is among `parents`.
pub open spec fn spec_has_all_parents(parents: Seq<ContractName>, name: Seq<char>) -> bool {
    forall|j: int| 0 <= j < name.len() && #[trigger] name[j] == '.' ==> names_contain(parents, name.skip(j + 1))
}

fn contains_name(names: &Vec<ContractName>, s: &String) -> (res: bool)
    ensures
        res == names_contain(names@, s@),
{
    let mut i: usize = 0;
    while i < names.len()
        invariant
            i <= names@.len(),
            forall|k: int| 0 <= k < i ==> names@[k]@ != s@,
        decreases names@.len() - i,
    {
        if names[i].0 == *s {
            assert(names@[i as int]@ == s@);
            return true;
        }
        i = i + 1;
    }
    false
}

/// Whether every parent domain of `contract_name` is among `parents`: for
/// "a.b.c" these are "b.c" and "c".
pub fn has_item_for_all_parents(parents: &Vec<ContractName>, contract_name: &ContractName) -> (res: bool)
    ensures
        res == spec_has_all_parents(parents@, contract_name@),
{
    let name = contract_name.0.as_str();
    let len = name.unicode_len();
    let mut j: usize = 0;
    while j < len
        invariant
            len == contract_name@.len(),
            name@ == contract_name@,
            j <= len,
            forall|k: int| 0 <= k < j && #[trigger] contract_name@[k] == '.' ==> names_contain(parents@, contract_name@.skip(k + 1)),
        decreases len - j,
    {
        if name.get_char(j) == '.' {
            let sub = name.substring_char(j + 1, len).to_owned();
            proof {
                assert(sub@ =~= contract_name@.skip(j + 1));
            }
            if !contains_name(parents, &sub) {
                return false;
            }
        }
        j = j + 1;
    }
    true
}

} // verus!
