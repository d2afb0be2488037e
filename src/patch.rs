//! Patches: partial byte specifications merged onto fetched report bytes.
use vstd::prelude::*;
use vstd::string::*;

use crate::decode::decoded_value;
use crate::layout::{ReportLayout, REPORT_CAPACITY};

verus! {

broadcast use is_ascii_spec_bytes;

/// One position of a patch.
#[derive(Clone, Copy, Debug, PartialEq, Eq, Structural)]
pub enum PatchToken {
    /// Keep the byte that was fetched from the device (written `xx`).
    Keep,
    /// Write this byte (written as two hexadecimal digits).
    Byte(u8),
}

/// Why a patch cannot be applied.
#[derive(Clone, Copy, Debug, PartialEq, Eq, Structural)]
pub enum PatchError {
    /// The token at this index is neither `xx` nor two hexadecimal digits.
    InvalidToken { index: usize },
    /// The report or the patch reaches past the transfer buffer's capacity.
    OutOfBounds,
}

/// The value of a hexadecimal digit, of either case.
pub open spec fn hex_digit_value(c: char) -> Option<u8> {
    if '0' <= c <= '9' {
        Some((c as u32 - '0' as u32) as u8)
    } else if 'a' <= c <= 'f' {
        Some((c as u32 - 'a' as u32 + 10) as u8)
    } else if 'A' <= c <= 'F' {
        Some((c as u32 - 'A' as u32 + 10) as u8)
    } else {
        None
    }
}

/// The token that the text `t` stands for: `xx`, or exactly two
/// hexadecimal digits with no prefix.
pub open spec fn token_of(t: Seq<char>) -> Option<PatchToken> {
    if t == seq!['x', 'x'] {
        Some(PatchToken::Keep)
    } else if t.len() == 2 && hex_digit_value(t[0]) is Some && hex_digit_value(t[1]) is Some {
        Some(PatchToken::Byte((16 * hex_digit_value(t[0])->Some_0 + hex_digit_value(t[1])->Some_0) as u8))
    } else {
        None
    }
}

/// Every token of the text is valid.
pub open spec fn tokens_valid(tokens: Seq<String>) -> bool {
    forall|j: int| 0 <= j < tokens.len() ==> (#[trigger] token_of(tokens[j]@)) is Some
}

/// The token at `index` is the first invalid one.
pub open spec fn first_invalid(tokens: Seq<String>, index: int) -> bool {
    &&& 0 <= index < tokens.len()
    &&& token_of(tokens[index]@) is None
    &&& forall|j: int| 0 <= j < index ==> (#[trigger] token_of(tokens[j]@)) is Some
}

/// The tokens that valid text stands for.
pub open spec fn parsed_tokens(tokens: Seq<String>) -> Seq<PatchToken> {
    Seq::new(tokens.len(), |j: int| token_of(tokens[j]@)->Some_0)
}

/// The number of leading bytes that a transfer holds before the report's
/// data: one for the Report ID slot of a report without ID, else none.
pub open spec fn id_slot(has_report_id: bool) -> int {
    if has_report_id {
        0
    } else {
        1
    }
}

/// The report and every patched position fit in the transfer buffer.
pub open spec fn merge_fits(fetched_len: int, patch_len: int, offset: int, has_report_id: bool) -> bool {
    &&& fetched_len + id_slot(has_report_id) <= REPORT_CAPACITY
    &&& patch_len == 0 || offset + id_slot(has_report_id) + patch_len <= REPORT_CAPACITY
}

/// The byte at index `i` of the transfer: the patch's byte where a literal
/// token lands there, else the fetched byte, else the ID slot's zero.
pub open spec fn merged_byte(
    fetched: Seq<u8>,
    patch: Seq<PatchToken>,
    offset: int,
    slot: int,
    i: int,
) -> u8 {
    let j = i - slot - offset;
    if 0 <= j < patch.len() && patch[j] is Byte {
        patch[j]->Byte_0
    } else if i < slot {
        0
    } else {
        fetched[i - slot]
    }
}

/// The bytes to send: the fetched bytes after the ID slot, with the patch
/// laid over them from `offset` on (counted after the ID slot). Patched
/// positions past the end of the transfer are not sent.
pub open spec fn merged(
    fetched: Seq<u8>,
    patch: Seq<PatchToken>,
    offset: int,
    has_report_id: bool,
) -> Seq<u8> {
    let slot = id_slot(has_report_id);
    Seq::new((fetched.len() + slot) as nat, |i: int| merged_byte(fetched, patch, offset, slot, i))
}

fn hex_digit(b: u8) -> (r: Option<u8>)
    ensures
        r == hex_digit_value(b as char),
{
    // '0' ..= '9', 'a' ..= 'f', 'A' ..= 'F' in ASCII
    if 48 <= b && b <= 57 {
        Some(b - 48)
    } else if 97 <= b && b <= 102 {
        Some(b - 97 + 10)
    } else if 65 <= b && b <= 70 {
        Some(b - 65 + 10)
    } else {
        None
    }
}

/// Reads one patch token: `xx` keeps the fetched byte, two hexadecimal
/// digits give a byte to write; anything else is refused.
pub fn parse_token(t: &str) -> (r: Option<PatchToken>)
    ensures
        r == token_of(t@),
{
    if !t.is_ascii() {
        assert(token_of(t@) is None) by {
            if t@.len() == 2 {
                let i = choose|i: int| 0 <= i < t@.len() && !('\0' <= #[trigger] t@[i] <= '\u{7f}');
                assert(hex_digit_value(t@[i]) is None);
            }
        }
        return None;
    }
    let b = t.as_bytes();
    assert(b@.len() == t@.len());
    if b.len() != 2 {
        return None;
    }
    let c0 = b[0];
    let c1 = b[1];
    assert(c0 as char == t@[0] && c1 as char == t@[1]);
    // 'x' in ASCII
    if c0 == 120 && c1 == 120 {
        assert(t@ =~= seq!['x', 'x']);
        return Some(PatchToken::Keep);
    }
    assert(t@ != seq!['x', 'x']);
    match (hex_digit(c0), hex_digit(c1)) {
        (Some(h), Some(l)) => Some(PatchToken::Byte(16 * h + l)),
        _ => None,
    }
}

/// Reads every token of a patch. The first invalid token, by index, is
/// reported.
pub fn parse_patch(tokens: &Vec<String>) -> (r: Result<Vec<PatchToken>, PatchError>)
    ensures
        r is Ok <==> tokens_valid(tokens@),
        r matches Ok(p) ==> p@ == parsed_tokens(tokens@),
        r matches Err(e) ==> (e matches PatchError::InvalidToken { index } && first_invalid(
            tokens@,
            index as int,
        )),
{
    let mut out: Vec<PatchToken> = Vec::new();
    let mut j: usize = 0;
    while j < tokens.len()
        invariant
            j <= tokens@.len(),
            out@.len() == j,
            forall|k: int| 0 <= k < j ==> (#[trigger] token_of(tokens@[k]@)) is Some,
            forall|k: int| 0 <= k < j ==> out@[k] == token_of(tokens@[k]@)->Some_0,
        decreases tokens@.len() - j,
    {
        match parse_token(tokens[j].as_str()) {
            Some(t) => out.push(t),
            None => {
                return Err(PatchError::InvalidToken { index: j });
            },
        }
        j = j + 1;
    }
    assert(out@ =~= parsed_tokens(tokens@));
    Ok(out)
}

/// Lays a parsed patch over fetched report bytes. The result is the whole
/// transfer: for a report without Report ID it starts with the ID slot's
/// zero, then come the fetched bytes; a literal token at patch index `j`
/// replaces the byte at `offset + j` of the report's data, a `Keep` token
/// leaves it as fetched.
pub fn merge_parsed(fetched: &[u8], patch: &[PatchToken], offset: usize, has_report_id: bool) -> (r:
    Result<Vec<u8>, PatchError>)
    ensures
        r is Ok <==> merge_fits(fetched@.len() as int, patch@.len() as int, offset as int, has_report_id),
        r matches Ok(v) ==> v@ == merged(fetched@, patch@, offset as int, has_report_id),
        r matches Err(e) ==> e == PatchError::OutOfBounds,
{
    let slot: usize = if has_report_id {
        0
    } else {
        1
    };
    if fetched.len() > REPORT_CAPACITY - slot {
        return Err(PatchError::OutOfBounds);
    }
    if patch.len() > 0 && (patch.len() > REPORT_CAPACITY - slot || offset > REPORT_CAPACITY - slot
        - patch.len()) {
        return Err(PatchError::OutOfBounds);
    }
    let ghost total = fetched@.len() + slot;
    let mut out: Vec<u8> = Vec::new();
    if slot == 1 {
        out.push(0);
    }
    let mut i: usize = 0;
    while i < fetched.len()
        invariant
            i <= fetched@.len(),
            out@.len() == slot + i,
            slot == id_slot(has_report_id),
            forall|k: int| 0 <= k < slot ==> out@[k] == 0,
            forall|k: int| slot <= k < slot + i ==> out@[k] == fetched@[k - slot],
        decreases fetched@.len() - i,
    {
        out.push(fetched[i]);
        i = i + 1;
    }
    let mut j: usize = 0;
    while j < patch.len()
        invariant
            j <= patch@.len(),
            out@.len() == total,
            slot == id_slot(has_report_id),
            patch@.len() == 0 || offset + slot + patch@.len() <= REPORT_CAPACITY,
            forall|k: int|
                0 <= k < total ==> out@[k] == merged_byte(
                    fetched@,
                    patch@.take(j as int),
                    offset as int,
                    slot as int,
                    k,
                ),
        decreases patch@.len() - j,
    {
        let idx = offset + slot + j;
        match patch[j] {
            PatchToken::Byte(b) => {
                if idx < out.len() {
                    out.set(idx, b);
                }
            },
            PatchToken::Keep => {},
        }
        assert forall|k: int| 0 <= k < total implies out@[k] == merged_byte(
            fetched@,
            patch@.take(j + 1),
            offset as int,
            slot as int,
            k,
        ) by {
            let kj = k - slot - offset;
            if kj != j {
                if 0 <= kj < j {
                    assert(patch@.take(j + 1)[kj] == patch@.take(j as int)[kj]);
                }
            }
        }
        j = j + 1;
    }
    assert(patch@.take(patch@.len() as int) =~= patch@);
    assert(out@ =~= merged(fetched@, patch@, offset as int, has_report_id));
    Ok(out)
}

/// Merges a patch given as text onto fetched report bytes, see
/// `merge_parsed`. Every token is checked before anything is merged: an
/// invalid one fails the whole merge, whatever the bounds.
pub fn merge(fetched: &[u8], tokens: &Vec<String>, offset: usize, has_report_id: bool) -> (r: Result<
    Vec<u8>,
    PatchError,
>)
    ensures
        !tokens_valid(tokens@) ==> (r matches Err(PatchError::InvalidToken { index })
            && first_invalid(tokens@, index as int)),
        tokens_valid(tokens@) ==> (r is Ok <==> merge_fits(
            fetched@.len() as int,
            tokens@.len() as int,
            offset as int,
            has_report_id,
        )),
        tokens_valid(tokens@) && r is Err ==> r == Err::<Vec<u8>, PatchError>(PatchError::OutOfBounds),
        r matches Ok(v) ==> tokens_valid(tokens@) && v@ == merged(
            fetched@,
            parsed_tokens(tokens@),
            offset as int,
            has_report_id,
        ),
{
    let patch = parse_patch(tokens)?;
    merge_parsed(fetched, patch.as_slice(), offset, has_report_id)
}

/// A patch of nothing but `xx` tokens leaves the report's data as fetched:
/// past the ID slot, the merged transfer is the fetched bytes.
pub proof fn lemma_wildcard_merge_keeps_fetched(
    fetched: Seq<u8>,
    tokens: Seq<String>,
    offset: int,
    has_report_id: bool,
)
    requires
        forall|j: int| 0 <= j < tokens.len() ==> (#[trigger] tokens[j])@ == seq!['x', 'x'],
    ensures
        tokens_valid(tokens),
        merged(fetched, parsed_tokens(tokens), offset, has_report_id).subrange(
            id_slot(has_report_id),
            fetched.len() + id_slot(has_report_id),
        ) == fetched,
{
    assert(tokens_valid(tokens)) by {
        assert forall|j: int| 0 <= j < tokens.len() implies (#[trigger] token_of(tokens[j]@)) is Some by {
            assert(tokens[j]@ == seq!['x', 'x']);
        }
    }
    let slot = id_slot(has_report_id);
    let m = merged(fetched, parsed_tokens(tokens), offset, has_report_id);
    assert forall|k: int| 0 <= k < fetched.len() implies m.subrange(slot, fetched.len() + slot)[k]
        == fetched[k] by {
        let j = k + slot - slot - offset;
        if 0 <= j < tokens.len() {
            assert(tokens[j]@ == seq!['x', 'x']);
        }
    }
    assert(m.subrange(slot, fetched.len() + slot) =~= fetched);
}

/// Reading a report and writing it back under a patch of nothing but `xx`
/// tokens sends the bytes that were fetched, behind a zero ID slot for a
/// report without Report ID, in a transfer of the report's transfer size;
/// every field then reads the same from the sent data as from the fetched
/// bytes.
pub proof fn lemma_round_trip(
    report: ReportLayout,
    fetched: Seq<u8>,
    tokens: Seq<String>,
    offset: int,
)
    requires
        report.wf(),
        fetched.len() == report.size_in_bytes,
        forall|j: int| 0 <= j < tokens.len() ==> (#[trigger] tokens[j])@ == seq!['x', 'x'],
    ensures
        ({
            let has_id = report.report_id is Some;
            let sent = merged(fetched, parsed_tokens(tokens), offset, has_id);
            &&& sent.len() == report.transfer_len()
            &&& sent == if has_id {
                fetched
            } else {
                seq![0u8] + fetched
            }
            &&& forall|i: int|
                0 <= i < report.fields@.len() ==> decoded_value(
                    #[trigger] report.fields@[i],
                    sent.subrange(id_slot(has_id), sent.len() as int),
                ) == decoded_value(report.fields@[i], fetched)
        }),
{
    let has_id = report.report_id is Some;
    lemma_wildcard_merge_keeps_fetched(fetched, tokens, offset, has_id);
    let sent = merged(fetched, parsed_tokens(tokens), offset, has_id);
    if has_id {
        assert(sent =~= sent.subrange(0, fetched.len() as int));
    } else {
        assert(sent[0] == 0);
        assert(sent =~= seq![0u8] + sent.subrange(1, fetched.len() as int + 1));
    }
}

} // verus!
