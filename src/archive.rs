//! Archive entries and the reading of a run of them.
use vstd::prelude::*;
use crate::header::{header_error, header_matches, parse_header, PosixHeader};
use crate::layout::{ParseError, BLOCK_LEN};

verus! {

/// One archive member: its header and its contents. Contents are not read,
/// so they are always empty.
#[derive(Debug, PartialEq, Eq)]
pub struct TarEntry<'a> {
    pub header: PosixHeader<'a>,
    pub contents: &'a str,
}

/// `e` is the entry read from the block at the start of `b`.
pub open spec fn entry_matches(e: TarEntry, b: Seq<u8>) -> bool {
    header_matches(e.header, b) && e.contents@.len() == 0
}

/// How many header blocks, one after another from the start of `b`, read
/// without error.
pub open spec fn header_run(b: Seq<u8>) -> nat
    decreases b.len(),
{
    if b.len() >= BLOCK_LEN && header_error(b) is None {
        1 + header_run(b.skip(BLOCK_LEN as int))
    } else {
        0
    }
}

/// The input that is left after `n` blocks of `b`.
pub open spec fn after_blocks(b: Seq<u8>, n: nat) -> Seq<u8> {
    b.skip(n * BLOCK_LEN as int)
}

/// Reads one entry from the front of `b`.
pub fn parse_entry<'a>(b: &'a [u8]) -> (r: Result<(&'a [u8], TarEntry<'a>), ParseError>)
    ensures
        match r {
            Ok((rest, e)) => {
                &&& header_error(b@) is None
                &&& entry_matches(e, b@)
                &&& rest@ == b@.skip(BLOCK_LEN as int)
            },
            Err(err) => header_error(b@) == Some(err),
        },
{
    match parse_header(b) {
        Ok((rest, header)) => {
            let e = TarEntry { header, contents: "" };
            proof {
                reveal_strlit("");
            }
            Ok((rest, e))
        },
        Err(err) => Err(err),
    }
}

/// Reads entries from the front of `b` until one cannot be read. Returns
/// what is left of the input and the entries in order. This never fails:
/// an entry that cannot be read ends the run, and its bytes are left over.
pub fn parse_tar<'a>(b: &'a [u8]) -> (r: (&'a [u8], Vec<TarEntry<'a>>))
    ensures
        r.1.len() == header_run(b@),
        r.0@ == after_blocks(b@, header_run(b@)),
        forall|k: int|
            0 <= k < r.1.len() ==> #[trigger] entry_matches(r.1[k], after_blocks(b@, k as nat)),
{
    let mut rest = b;
    let mut entries: Vec<TarEntry<'a>> = Vec::new();
    proof {
        assert(b@.skip(0) =~= b@);
    }
    loop
        invariant
            entries.len() * BLOCK_LEN <= b@.len(),
            rest@ == after_blocks(b@, entries.len() as nat),
            header_run(b@) == entries.len() + header_run(rest@),
            forall|k: int|
                0 <= k < entries.len() ==> #[trigger] entry_matches(
                    entries[k],
                    after_blocks(b@, k as nat),
                ),
        ensures
            rest@ == after_blocks(b@, entries.len() as nat),
            header_run(b@) == entries.len(),
            forall|k: int|
                0 <= k < entries.len() ==> #[trigger] entry_matches(
                    entries[k],
                    after_blocks(b@, k as nat),
                ),
        decreases rest@.len(),
    {
        match parse_entry(rest) {
            Ok((next, e)) => {
                proof {
                    let n = entries.len() as nat;
                    assert((n + 1) * BLOCK_LEN as int == n * BLOCK_LEN as int + BLOCK_LEN as int)
                        by (nonlinear_arith);
                    assert(rest@.len() >= BLOCK_LEN);
                    assert(after_blocks(b@, n + 1) =~= b@.skip(n * BLOCK_LEN as int).skip(
                        BLOCK_LEN as int,
                    ));
                    assert(after_blocks(b@, n + 1) =~= rest@.skip(BLOCK_LEN as int));
                }
                entries.push(e);
                rest = next;
            },
            Err(_) => {
                break;
            },
        }
    }
    (rest, entries)
}

/// A buffer that holds exactly one header block that reads without error
/// reads as exactly one entry, taken from the whole buffer, with nothing
/// left over.
pub proof fn lemma_single_block_archive(b: Seq<u8>)
    requires
        b.len() == BLOCK_LEN,
        header_error(b) is None,
    ensures
        header_run(b) == 1,
        after_blocks(b, 0) == b,
        after_blocks(b, 1).len() == 0,
{
    assert(b.skip(0) =~= b);
    assert(header_run(b.skip(BLOCK_LEN as int)) == 0);
}

} // verus!
