//! The indexer's store as a whole.

use crate::indexer::blobs::Blobs;
use crate::indexer::blocks::Blocks;
use crate::indexer::contracts::Contracts;
use crate::indexer::proofs::Proofs;
use crate::indexer::table::IndexerError;
use crate::indexer::transactions::Transactions;
use vstd::prelude::*;

verus! {

/// The blocks, blobs, proofs, contract registrations and transactions of
/// the indexer, kept in the trees of one sled database.
#[derive(Debug)]
pub struct IndexerDb {
    pub blocks: Blocks,
    pub blobs: Blobs,
    pub proofs: Proofs,
    pub contracts: Contracts,
    pub transactions: Transactions,
}

/// Calls `sled::Db::clone`, which gives another handle on the same
/// database. Nothing is claimed of it.
#[verifier::external_body]
fn another_handle(db: &sled::Db) -> sled::Db {
    db.clone()
}

impl IndexerDb {
    /// Opens the trees of the indexer in `db`, which it takes, stopping at
    /// the first error; an empty blocks tree gets the genesis block, of
    /// height 0 and bytes `genesis`. Each store gets its own handle on the
    /// database and opens its own trees, under names that no other store
    /// uses, so no two stores reach the same tree; the stores can be opened
    /// only here. The caller keeps no other handle that writes to these
    /// trees.
    pub fn new(db: sled::Db, genesis: &[u8]) -> (res: Result<IndexerDb, IndexerError>)
        ensures
            res matches Ok(d) ==> d.blobs.wf() && d.proofs.wf() && d.blocks.latest() is Some,
            res matches Err(e) ==> e is Storage || e is Corrupt,
    {
        let blocks = Blocks::new(another_handle(&db), genesis)?;
        let blobs = Blobs::new(another_handle(&db))?;
        let proofs = Proofs::new(another_handle(&db))?;
        let contracts = Contracts::new(another_handle(&db))?;
        let transactions = Transactions::new(db)?;
        Ok(IndexerDb { blocks, blobs, proofs, contracts, transactions })
    }
}

/// The decimal digits of `x`, most significant first, with no leading
/// zero (zero itself is "0").
pub open spec fn dec_digits(x: nat) -> Seq<char>
    decreases x,
{
    if x < 10 {
        seq![(48 + x) as char]
    } else {
        dec_digits(x / 10).push((48 + x % 10) as char)
    }
}

fn digit_str(d: u64) -> (res: &'static str)
    requires
        d < 10,
    ensures
        res@ == seq![(48 + d) as char],
{
    proof {
        reveal_strlit("0");
        reveal_strlit("1");
        reveal_strlit("2");
        reveal_strlit("3");
        reveal_strlit("4");
        reveal_strlit("5");
        reveal_strlit("6");
        reveal_strlit("7");
        reveal_strlit("8");
        reveal_strlit("9");
    }
    let r = match d {
        0 => "0",
        1 => "1",
        2 => "2",
        3 => "3",
        4 => "4",
        5 => "5",
        6 => "6",
        7 => "7",
        8 => "8",
        _ => "9",
    };
    assert(r@ =~= seq![(48 + d) as char]);
    r
}

/// `u` written in decimal, as `{}` writes it.
pub fn u64_to_str(u: u64) -> (res: String)
    ensures
        res@ == dec_digits(u as nat),
{
    let mut digits: Vec<u64> = Vec::new();
    let mut q: u64 = u;
    loop
        invariant_except_break
            dec_digits(u as nat) == dec_digits(q as nat) + digits@.map_values(|d: u64| (48 + d) as char),
            forall|i: int| 0 <= i < digits@.len() ==> #[trigger] digits@[i] < 10,
        ensures
            dec_digits(u as nat) == digits@.map_values(|d: u64| (48 + d) as char),
            forall|i: int| 0 <= i < digits@.len() ==> #[trigger] digits@[i] < 10,
        decreases q,
    {
        let d = q % 10;
        let ghost before = digits@;
        digits.insert(0, d);
        proof {
            assert(digits@ =~= seq![d] + before);
            assert(digits@.map_values(|d: u64| (48 + d) as char) =~= seq![(48 + d) as char] + before.map_values(|d: u64| (48 + d) as char));
            if q >= 10 {
                assert(dec_digits(q as nat) == dec_digits((q / 10) as nat).push((48 + q % 10) as char));
                assert(dec_digits(q as nat) + before.map_values(|d: u64| (48 + d) as char) =~= dec_digits((q / 10) as nat) + digits@.map_values(|d: u64| (48 + d) as char));
            } else {
                assert(dec_digits(q as nat) =~= seq![(48 + d) as char]);
            }
        }
        q = q / 10;
        if q == 0 {
            break;
        }
    }
    let mut res = String::new();
    let mut i: usize = 0;
    while i < digits.len()
        invariant
            i <= digits@.len(),
            forall|j: int| 0 <= j < digits@.len() ==> #[trigger] digits@[j] < 10,
            res@ == digits@.take(i as int).map_values(|d: u64| (48 + d) as char),
        decreases digits@.len() - i,
    {
        let ghost before = res@;
        res.append(digit_str(digits[i]));
        proof {
            assert(digits@.take(i + 1).map_values(|d: u64| (48 + d) as char) =~= digits@.take(i as int).map_values(|d: u64| (48 + d) as char).push((48 + digits@[i as int]) as char));
            assert(res@ =~= digits@.take(i + 1).map_values(|d: u64| (48 + d) as char));
        }
        i = i + 1;
    }
    assert(digits@.take(digits@.len() as int) =~= digits@);
    res
}

} // verus!
