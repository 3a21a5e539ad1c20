use vstd::prelude::*;
use crate::models::EntryId;
use crate::text::push_char;

verus! {

/// `uuid::Uuid::new_v4`, as its 128 bits. The value is random; the source sets the
/// version nibble to 4 and the two variant bits to `10`, and the contract states
/// exactly that.
#[verifier::external_body]
pub(crate) fn new_entry_id() -> (id: EntryId)
    ensures
        (id >> 76u128) & 0xfu128 == 4,
        (id >> 62u128) & 0x3u128 == 2,
{
    uuid::Uuid::new_v4().as_u128()
}

/// The lower-case hexadecimal digit for `d < 16`.
pub open spec fn hex_char(d: u128) -> char {
    if d < 10 {
        ((d + 48) as u32) as char
    } else {
        ((d + 87) as u32) as char
    }
}

/// The `k`-th hexadecimal digit of `id`, counted from the most significant.
pub open spec fn nibble(id: u128, k: int) -> u128 {
    (id >> ((31 - k) * 4) as u128) & 0xfu128
}

/// Whether a hyphen stands before the `k`-th digit in the hyphenated form.
pub open spec fn hyphen_before(k: int) -> bool {
    k == 8 || k == 12 || k == 16 || k == 20
}

/// The hyphenated text of the first `k` digits of `id`.
pub open spec fn uuid_prefix(id: u128, k: int) -> Seq<char>
    decreases k,
{
    if k <= 0 {
        Seq::empty()
    } else {
        let before = uuid_prefix(id, k - 1);
        let before = if hyphen_before(k - 1) { before.push('-') } else { before };
        before.push(hex_char(nibble(id, k - 1)))
    }
}

/// The hyphenated lower-case form of a UUID, `xxxxxxxx-xxxx-xxxx-xxxx-xxxxxxxxxxxx`,
/// as `uuid` displays it.
pub open spec fn uuid_hyphenated(id: u128) -> Seq<char> {
    uuid_prefix(id, 32)
}

/// The hyphenated lower-case text of an entry id.
pub fn uuid_text(id: EntryId) -> (s: String)
    ensures
        s@ == uuid_hyphenated(id),
{
    let mut s = String::new();
    let mut k: u32 = 0;
    while k < 32
        invariant
            k <= 32,
            s@ == uuid_prefix(id, k as int),
        decreases 32 - k,
    {
        if k == 8 || k == 12 || k == 16 || k == 20 {
            push_char(&mut s, '-');
        }
        let shift: u128 = ((31 - k) * 4) as u128;
        let d: u128 = (id >> shift) & 0xfu128;
        assert(d < 16) by (bit_vector)
            requires
                d == (id >> shift) & 0xfu128,
        ;
        let c: char = if d < 10 {
            ((d as u8) + 48u8) as char
        } else {
            ((d as u8) + 87u8) as char
        };
        assert(c == hex_char(nibble(id, k as int)));
        push_char(&mut s, c);
        k = k + 1;
    }
    s
}

} // verus!
