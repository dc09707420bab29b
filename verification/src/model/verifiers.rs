//! Verifiers built into the node, and the program ids that name them.

use crate::model::{str_is, ProgramId, Verifier};
use vstd::prelude::*;

verus! {

/// A verifier the node runs itself, without a proof system.
#[derive(Debug, Copy, Clone, PartialEq, Eq, Structural)]
pub enum NativeVerifiers {
    Blst,
    Sha3_256,
    HmacSha256,
}

/// The name of a native verifier.
pub open spec fn native_verifier_name(v: NativeVerifiers) -> Seq<char> {
    match v {
        NativeVerifiers::Blst => seq!['b', 'l', 's', 't'],
        NativeVerifiers::Sha3_256 => seq!['s', 'h', 'a', '3', '_', '2', '5', '6'],
        NativeVerifiers::HmacSha256 => seq!['h', 'm', 'a', 'c', '_', 's', 'h', 'a', '2', '5', '6'],
    }
}

/// The start of the message for a verifier that is not native.
pub open spec fn unknown_verifier_prefix() -> Seq<char> {
    seq!['U', 'n', 'k', 'n', 'o', 'w', 'n', ' ', 'n', 'a', 't', 'i', 'v', 'e', ' ', 'v', 'e', 'r', 'i', 'f', 'i', 'e', 'r', ':', ' ']
}

impl NativeVerifiers {
    /// The program id of a native verifier: the bytes of its name.
    pub fn program_id(self) -> (res: ProgramId)
        ensures
            res@ == vstd::utf8::encode_utf8(native_verifier_name(self)),
    {
        let name = match self {
            NativeVerifiers::Blst => "blst",
            NativeVerifiers::Sha3_256 => "sha3_256",
            NativeVerifiers::HmacSha256 => "hmac_sha256",
        };
        proof {
            reveal_strlit("blst");
            reveal_strlit("sha3_256");
            reveal_strlit("hmac_sha256");
            assert(name@ =~= native_verifier_name(self));
        }
        ProgramId(name.as_bytes_vec())
    }

    /// The native verifier named by `value`, or a message saying there is
    /// none.
    pub fn try_from_verifier(value: &Verifier) -> (res: Result<NativeVerifiers, String>)
        ensures
            match res {
                Ok(v) => native_verifier_name(v) == value@,
                Err(msg) => (forall|v: NativeVerifiers| #[trigger] native_verifier_name(v) != value@)
                    && msg@ == unknown_verifier_prefix() + value@,
            },
    {
        let s = value.0.as_str();
        let blst = "blst";
        let sha = "sha3_256";
        let hmac = "hmac_sha256";
        let prefix = "Unknown native verifier: ";
        proof {
            reveal_strlit("blst");
            reveal_strlit("sha3_256");
            reveal_strlit("hmac_sha256");
            reveal_strlit("Unknown native verifier: ");
            assert(blst@ =~= native_verifier_name(NativeVerifiers::Blst));
            assert(sha@ =~= native_verifier_name(NativeVerifiers::Sha3_256));
            assert(hmac@ =~= native_verifier_name(NativeVerifiers::HmacSha256));
            assert(prefix@ =~= unknown_verifier_prefix());
        }
        if str_is(s, blst) {
            Ok(NativeVerifiers::Blst)
        } else if str_is(s, sha) {
            Ok(NativeVerifiers::Sha3_256)
        } else if str_is(s, hmac) {
            Ok(NativeVerifiers::HmacSha256)
        } else {
            proof {
                assert forall|v: NativeVerifiers| #[trigger] native_verifier_name(v) != value@ by {
                    match v {
                        NativeVerifiers::Blst => {},
                        NativeVerifiers::Sha3_256 => {},
                        NativeVerifiers::HmacSha256 => {},
                    }
                }
            }
            let msg = String::from_str(prefix);
            Err(msg.concat(s))
        }
    }
}

/// Native verifiers have distinct names, so a name finds back its verifier.
pub proof fn lemma_native_names_distinct(a: NativeVerifiers, b: NativeVerifiers)
    requires
        native_verifier_name(a) == native_verifier_name(b),
    ensures
        a == b,
{
    match (a, b) {
        (NativeVerifiers::Blst, NativeVerifiers::Sha3_256) => {
            assert(native_verifier_name(a).len() != native_verifier_name(b).len());
        },
        (NativeVerifiers::Blst, NativeVerifiers::HmacSha256) => {
            assert(native_verifier_name(a).len() != native_verifier_name(b).len());
        },
        (NativeVerifiers::Sha3_256, NativeVerifiers::Blst) => {
            assert(native_verifier_name(a).len() != native_verifier_name(b).len());
        },
        (NativeVerifiers::Sha3_256, NativeVerifiers::HmacSha256) => {
            assert(native_verifier_name(a).len() != native_verifier_name(b).len());
        },
        (NativeVerifiers::HmacSha256, NativeVerifiers::Blst) => {
            assert(native_verifier_name(a).len() != native_verifier_name(b).len());
        },
        (NativeVerifiers::HmacSha256, NativeVerifiers::Sha3_256) => {
            assert(native_verifier_name(a).len() != native_verifier_name(b).len());
        },
        _ => {},
    }
}

} // verus!
