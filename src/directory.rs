//! Flat directories: a directory is an inode whose content is an array of
//! fixed-size entry records.
//!
//! A record is `ENTRY_SIZE` bytes: the name, padded with zero bytes to
//! `NAME_MAX + 1` bytes; the inumber, as a little-endian word; and one byte
//! that is non-zero while the slot is in use.
use vstd::prelude::*;

use vstd::string::StringSliceAdditionalSpecFns;
use vstd::bytes::{spec_u64_from_le_bytes, spec_u64_to_le_bytes, u64_from_le_bytes, u64_to_le_bytes};

use crate::block::{BlockDevice, BlockOperations};
use crate::free_map::{first_free, FreeMap, ROOT_INODE};
use crate::inode::{can_grow, content, file_blocks, holds_inode, is_index_block, overwrite, transfer_len, tree_marked, tree_ok, InodeManager};
use crate::{Ofs, Size};

verus! {

/// Longest name, in bytes.
pub const NAME_MAX: usize = 15;

/// Bytes of the name field of a record.
pub const NAME_FIELD: usize = 16;

/// Bytes of one record.
pub const ENTRY_SIZE: usize = 25;

/// Number of whole records in directory content `c`.
pub open spec fn entry_count(c: Seq<u8>) -> int {
    c.len() as int / 25
}

/// Record `j` of directory content `c`.
pub open spec fn entry_at(c: Seq<u8>, j: int) -> Seq<u8> {
    c.subrange(25 * j, 25 * j + 25)
}

pub open spec fn entry_used(e: Seq<u8>) -> bool {
    e[24] != 0
}

pub open spec fn entry_key(e: Seq<u8>) -> Seq<u8> {
    e.subrange(0, 16)
}

pub open spec fn entry_block(e: Seq<u8>) -> Size {
    spec_u64_from_le_bytes(e.subrange(16, 24))
}

/// A name is one to `NAME_MAX` ASCII bytes, none of them zero.
pub open spec fn valid_name(n: Seq<u8>) -> bool {
    &&& 1 <= n.len() <= 15
    &&& forall|i: int| 0 <= i < n.len() ==> 0 < #[trigger] n[i] < 128
}

/// The name field that stores `n`: its bytes, then zeros.
pub open spec fn padded_name(n: Seq<u8>) -> Seq<u8> {
    n + Seq::new((16 - n.len()) as nat, |i: int| 0u8)
}

/// The record of an in-use slot for name field `key` and inumber `block`.
pub open spec fn record(key: Seq<u8>, block: Size) -> Seq<u8> {
    key + spec_u64_to_le_bytes(block) + seq![1u8]
}

/// The first in-use record among the first `k` whose name field is `key`.
pub open spec fn first_match(c: Seq<u8>, key: Seq<u8>, k: int) -> Option<int>
    decreases k,
{
    if k <= 0 {
        None
    } else {
        match first_match(c, key, k - 1) {
            Some(j) => Some(j),
            None => if entry_used(entry_at(c, k - 1)) && entry_key(entry_at(c, k - 1)) == key {
                Some(k - 1)
            } else {
                None
            },
        }
    }
}

/// The inumber stored under name field `key`, if any record in use has it.
pub open spec fn dir_lookup(c: Seq<u8>, key: Seq<u8>) -> Option<Size> {
    match first_match(c, key, entry_count(c)) {
        Some(j) => Some(entry_block(entry_at(c, j))),
        None => None,
    }
}

/// The name fields of the records in use.
pub open spec fn used_keys(c: Seq<u8>) -> Set<Seq<u8>> {
    Set::new(
        |key: Seq<u8>|
            exists|j: int|
                0 <= j < entry_count(c) && entry_used(#[trigger] entry_at(c, j)) && entry_key(entry_at(c, j)) == key,
    )
}

/// The first slot among the first `k` that is not in use.
pub open spec fn first_free_slot(c: Seq<u8>, k: int) -> Option<int>
    decreases k,
{
    if k <= 0 {
        None
    } else {
        match first_free_slot(c, k - 1) {
            Some(j) => Some(j),
            None => if !entry_used(entry_at(c, k - 1)) {
                Some(k - 1)
            } else {
                None
            },
        }
    }
}

/// The bytes of a name field up to its first zero byte.
pub open spec fn trimmed(n: Seq<u8>) -> Seq<u8>
    decreases n.len(),
{
    if n.len() == 0 || n[0] == 0 {
        Seq::empty()
    } else {
        seq![n[0]] + trimmed(n.drop_first())
    }
}

pub open spec fn as_chars(b: Seq<u8>) -> Seq<char> {
    Seq::new(b.len(), |i: int| b[i] as char)
}

pub open spec fn all_ascii(b: Seq<u8>) -> bool {
    forall|i: int| 0 <= i < b.len() ==> #[trigger] b[i] < 128
}

/// The names of the first `k` records in use, in slot order, leaving out
/// records whose name is not ASCII.
pub open spec fn listing(c: Seq<u8>, k: int) -> Seq<Seq<char>>
    decreases k,
{
    if k <= 0 {
        Seq::empty()
    } else {
        let e = entry_at(c, k - 1);
        let rest = listing(c, k - 1);
        if entry_used(e) && all_ascii(trimmed(entry_key(e))) {
            rest.push(as_chars(trimmed(entry_key(e))))
        } else {
            rest
        }
    }
}

proof fn lemma_ascii_push(b: Seq<u8>, x: u8)
    ensures
        all_ascii(b.push(x)) == (all_ascii(b) && x < 128),
{
    if all_ascii(b) && x < 128 {
        assert forall|i: int| 0 <= i < b.push(x).len() implies #[trigger] b.push(x)[i] < 128 by {
            if i < b.len() {
                assert(b.push(x)[i] == b[i]);
            }
        }
    }
    if all_ascii(b.push(x)) {
        assert(b.push(x)[b.len() as int] == x);
        assert forall|i: int| 0 <= i < b.len() implies #[trigger] b[i] < 128 by {
            assert(b.push(x)[i] == b[i]);
        }
    }
}

/// Once a match is found among the first `j + 1` records, looking further keeps it.
proof fn lemma_first_match_stable(c: Seq<u8>, key: Seq<u8>, j: int, k: int)
    requires
        0 <= j < k,
        first_match(c, key, j) is None,
        entry_used(entry_at(c, j)) && entry_key(entry_at(c, j)) == key,
    ensures
        first_match(c, key, k) == Some(j),
    decreases k - j,
{
    if k > j + 1 {
        lemma_first_match_stable(c, key, j, k - 1);
    }
}

/// With no match among the first `k` records, there is none.
proof fn lemma_first_match_none(c: Seq<u8>, key: Seq<u8>, k: int)
    requires
        forall|j: int| 0 <= j < k ==> !(entry_used(#[trigger] entry_at(c, j)) && entry_key(entry_at(c, j)) == key),
    ensures
        first_match(c, key, k) is None,
    decreases k,
{
    if k > 0 {
        lemma_first_match_none(c, key, k - 1);
    }
}

/// Once a free slot is found among the first `j + 1`, looking further keeps it.
proof fn lemma_first_free_slot_stable(c: Seq<u8>, j: int, k: int)
    requires
        0 <= j < k,
        first_free_slot(c, j) is None,
        !entry_used(entry_at(c, j)),
    ensures
        first_free_slot(c, k) == Some(j),
    decreases k - j,
{
    if k > j + 1 {
        lemma_first_free_slot_stable(c, j, k - 1);
    }
}

/// A name found by lookup is in use; a name in use is found.
proof fn lemma_lookup_used(c: Seq<u8>, key: Seq<u8>)
    ensures
        dir_lookup(c, key) is Some <==> used_keys(c).contains(key),
{
    if used_keys(c).contains(key) {
        let j = choose|j: int| 0 <= j < entry_count(c) && entry_used(#[trigger] entry_at(c, j)) && entry_key(entry_at(c, j)) == key;
        if first_match(c, key, j) is None {
            lemma_first_match_stable(c, key, j, entry_count(c));
        } else {
            lemma_first_match_found(c, key, j, entry_count(c));
        }
    } else {
        lemma_first_match_none(c, key, entry_count(c));
    }
}

/// A match among the first `j` records stays the first as `k` grows.
proof fn lemma_first_match_found(c: Seq<u8>, key: Seq<u8>, j: int, k: int)
    requires
        0 <= j <= k,
        first_match(c, key, j) is Some,
    ensures
        first_match(c, key, k) == first_match(c, key, j),
    decreases k - j,
{
    if k > j {
        lemma_first_match_found(c, key, j, k - 1);
    }
}

/// Writing the record for `key` into slot `s` of `c`, which is free or just
/// past the end, adds `key` to the names in use and makes it look up `block`.
proof fn lemma_added(c: Seq<u8>, c2: Seq<u8>, key: Seq<u8>, block: Size, s: int)
    requires
        c.len() % 25 == 0,
        key.len() == 16,
        0 <= s <= entry_count(c),
        s < entry_count(c) ==> !entry_used(entry_at(c, s)) && c2 == overwrite(c, 25 * s, record(key, block), 25),
        s == entry_count(c) ==> c2 == c + record(key, block),
        !used_keys(c).contains(key),
    ensures
        c2.len() % 25 == 0,
        used_keys(c2) == used_keys(c).insert(key),
        dir_lookup(c2, key) == Some(block),
        forall|j: int| 0 <= j < entry_count(c) && j != s ==> #[trigger] entry_at(c2, j) == entry_at(c, j),
        all_ascii(trimmed(key)) ==> listing(c2, entry_count(c2)).len() == listing(c, entry_count(c)).len() + 1,
{
    let rec = record(key, block);
    vstd::bytes::lemma_auto_spec_u64_to_from_le_bytes();
    assert(rec.len() == 25);
    assert(entry_at(c2, s) =~= rec);
    assert(entry_key(rec) =~= key);
    assert(rec.subrange(16, 24) =~= spec_u64_to_le_bytes(block));
    assert(entry_used(rec));
    assert forall|j: int| 0 <= j < entry_count(c) && j != s implies #[trigger] entry_at(c2, j) == entry_at(c, j) by {
        assert(entry_at(c2, j) =~= entry_at(c, j));
    }
    assert forall|j: int| 0 <= j < entry_count(c2) && j != s implies #[trigger] entry_at(c2, j) == entry_at(c, j) by {
        assert(j < entry_count(c));
    }
    assert(used_keys(c2) =~= used_keys(c).insert(key)) by {
        assert forall|k2: Seq<u8>| #[trigger] used_keys(c2).contains(k2) <==> used_keys(c).insert(key).contains(k2) by {
            if used_keys(c2).contains(k2) && k2 != key {
                let j = choose|j: int| 0 <= j < entry_count(c2) && entry_used(#[trigger] entry_at(c2, j)) && entry_key(entry_at(c2, j)) == k2;
                assert(j != s);
                assert(entry_at(c, j) == entry_at(c2, j));
            }
            if used_keys(c).contains(k2) {
                let j = choose|j: int| 0 <= j < entry_count(c) && entry_used(#[trigger] entry_at(c, j)) && entry_key(entry_at(c, j)) == k2;
                assert(j != s);
                assert(entry_at(c2, j) == entry_at(c, j));
            }
            if k2 == key {
                assert(entry_used(entry_at(c2, s)) && entry_key(entry_at(c2, s)) == key);
            }
        }
    }
    assert forall|j: int| 0 <= j < s implies !(entry_used(#[trigger] entry_at(c2, j)) && entry_key(entry_at(c2, j)) == key) by {
        assert(entry_at(c2, j) == entry_at(c, j));
    }
    lemma_first_match_none(c2, key, s);
    lemma_first_match_stable(c2, key, s, entry_count(c2));
    if all_ascii(trimmed(key)) {
        assert(entry_key(entry_at(c2, s)) == key);
        if s < entry_count(c) {
            assert(entry_count(c2) == entry_count(c));
            lemma_listing_grows(c, c2, s, entry_count(c));
        } else {
            assert(entry_count(c2) == entry_count(c) + 1);
            lemma_listing_grows(c, c2, s, entry_count(c));
            assert(listing(c2, entry_count(c2)) == listing(c2, entry_count(c)).push(as_chars(trimmed(key))));
        }
    }
}

/// A name without zero bytes, followed by zero padding, trims back to itself.
proof fn lemma_trimmed_pad(n: Seq<u8>, k: nat)
    requires
        forall|i: int| 0 <= i < n.len() ==> #[trigger] n[i] != 0,
        k >= 1,
    ensures
        trimmed(n + Seq::new(k, |i: int| 0u8)) == n,
    decreases n.len(),
{
    let z = Seq::new(k, |i: int| 0u8);
    if n.len() == 0 {
        assert((n + z)[0] == 0);
        assert(n =~= Seq::<u8>::empty());
    } else {
        assert((n + z).drop_first() =~= n.drop_first() + z);
        assert forall|i: int| 0 <= i < n.drop_first().len() implies #[trigger] n.drop_first()[i] != 0 by {
            assert(n.drop_first()[i] == n[i + 1]);
        }
        lemma_trimmed_pad(n.drop_first(), k);
        assert(seq![n[0]] + n.drop_first() =~= n);
    }
}

/// The name field of a valid name trims back to the name, which is ASCII.
proof fn lemma_valid_key(n: Seq<u8>)
    requires
        valid_name(n),
    ensures
        trimmed(padded_name(n)) == n,
        all_ascii(n),
{
    lemma_trimmed_pad(n, (16 - n.len()) as nat);
}

/// What the listing of the first `k` records holds.
proof fn lemma_listing_contents(c: Seq<u8>, k: int)
    requires
        k >= 0,
    ensures
        forall|s: Seq<char>| #[trigger] listing(c, k).contains(s) <==> exists|j: int|
            0 <= j < k && entry_used(#[trigger] entry_at(c, j)) && all_ascii(trimmed(entry_key(entry_at(c, j))))
                && s == as_chars(trimmed(entry_key(entry_at(c, j)))),
    decreases k,
{
    if k > 0 {
        lemma_listing_contents(c, k - 1);
        let e = entry_at(c, k - 1);
        let rest = listing(c, k - 1);
        assert forall|s: Seq<char>| #[trigger] listing(c, k).contains(s) <==> exists|j: int|
            0 <= j < k && entry_used(#[trigger] entry_at(c, j)) && all_ascii(trimmed(entry_key(entry_at(c, j))))
                && s == as_chars(trimmed(entry_key(entry_at(c, j)))) by {
            if entry_used(e) && all_ascii(trimmed(entry_key(e))) {
                let t = as_chars(trimmed(entry_key(e)));
                if listing(c, k).contains(s) {
                    let i = choose|i: int| 0 <= i < listing(c, k).len() && listing(c, k)[i] == s;
                    if i < rest.len() {
                        assert(rest[i] == s);
                        assert(rest.contains(s));
                    } else {
                        assert(s == t);
                    }
                }
                if exists|j: int| 0 <= j < k && entry_used(#[trigger] entry_at(c, j)) && all_ascii(trimmed(entry_key(entry_at(c, j))))
                    && s == as_chars(trimmed(entry_key(entry_at(c, j)))) {
                    let j = choose|j: int| 0 <= j < k && entry_used(#[trigger] entry_at(c, j)) && all_ascii(trimmed(entry_key(entry_at(c, j))))
                        && s == as_chars(trimmed(entry_key(entry_at(c, j))));
                    if j < k - 1 {
                        assert(rest.contains(s));
                        let i = choose|i: int| 0 <= i < rest.len() && rest[i] == s;
                        assert(listing(c, k)[i] == s);
                    } else {
                        assert(listing(c, k)[rest.len() as int] == s);
                    }
                }
            } else {
                if exists|j: int| 0 <= j < k && entry_used(#[trigger] entry_at(c, j)) && all_ascii(trimmed(entry_key(entry_at(c, j))))
                    && s == as_chars(trimmed(entry_key(entry_at(c, j)))) {
                    let j = choose|j: int| 0 <= j < k && entry_used(#[trigger] entry_at(c, j)) && all_ascii(trimmed(entry_key(entry_at(c, j))))
                        && s == as_chars(trimmed(entry_key(entry_at(c, j))));
                    assert(j < k - 1);
                }
            }
        }
    }
}

/// The names in use after the first `i` adds of a chain that starts empty.
proof fn lemma_keys_after(cs: Seq<Seq<u8>>, names: Seq<Seq<u8>>, i: int)
    requires
        cs.len() == names.len() + 1,
        used_keys(cs[0]) == Set::<Seq<u8>>::empty(),
        forall|m: int| 0 <= m < names.len() ==> #[trigger] used_keys(cs[m + 1]) == used_keys(cs[m]).insert(padded_name(names[m])),
        0 <= i <= names.len(),
    ensures
        forall|key: Seq<u8>| #[trigger] used_keys(cs[i]).contains(key) <==> exists|m: int| 0 <= m < i && key == padded_name(#[trigger] names[m]),
    decreases i,
{
    if i > 0 {
        lemma_keys_after(cs, names, i - 1);
        assert(used_keys(cs[i]) == used_keys(cs[(i - 1) + 1]));
        assert forall|key: Seq<u8>| #[trigger] used_keys(cs[i]).contains(key) <==> exists|m: int| 0 <= m < i && key == padded_name(#[trigger] names[m]) by {
            if used_keys(cs[i]).contains(key) && key != padded_name(names[i - 1]) {
                assert(used_keys(cs[i - 1]).contains(key));
            }
            if exists|m: int| 0 <= m < i && key == padded_name(#[trigger] names[m]) {
                let m = choose|m: int| 0 <= m < i && key == padded_name(#[trigger] names[m]);
                if m < i - 1 {
                    assert(used_keys(cs[i - 1]).contains(key));
                }
            }
        }
    }
}

/// After successful adds of valid `names`, in order, starting from a
/// directory with no record in use, the listing holds exactly those names:
/// `cs[i]` is the directory's content before the `i`-th add, and each add
/// puts its name among those in use, as `add` promises.
pub proof fn lemma_list_fidelity(cs: Seq<Seq<u8>>, names: Seq<Seq<u8>>)
    requires
        cs.len() == names.len() + 1,
        used_keys(cs[0]) == Set::<Seq<u8>>::empty(),
        forall|m: int| 0 <= m < names.len() ==> #[trigger] valid_name(names[m]),
        forall|m: int| 0 <= m < names.len() ==> #[trigger] used_keys(cs[m + 1]) == used_keys(cs[m]).insert(padded_name(names[m])),
        listing(cs[0], entry_count(cs[0])).len() == 0,
        forall|m: int| 0 <= m < names.len() ==> #[trigger] listing(cs[m + 1], entry_count(cs[m + 1])).len()
            == listing(cs[m], entry_count(cs[m])).len() + 1,
    ensures
        listing(cs.last(), entry_count(cs.last())).len() == names.len(),
        forall|s: Seq<char>|
            #[trigger] listing(cs.last(), entry_count(cs.last())).contains(s) <==> exists|m: int|
                0 <= m < names.len() && s == as_chars(#[trigger] names[m]),
{
    let c = cs.last();
    let k = entry_count(c);
    lemma_listing_count(cs, names.len() as int);
    lemma_keys_after(cs, names, names.len() as int);
    assert(cs[names.len() as int] == c);
    lemma_listing_contents(c, k);
    assert forall|s: Seq<char>| #[trigger] listing(c, k).contains(s) <==> exists|m: int|
        0 <= m < names.len() && s == as_chars(#[trigger] names[m]) by {
        if listing(c, k).contains(s) {
            let j = choose|j: int| 0 <= j < k && entry_used(#[trigger] entry_at(c, j)) && all_ascii(trimmed(entry_key(entry_at(c, j))))
                && s == as_chars(trimmed(entry_key(entry_at(c, j))));
            let key = entry_key(entry_at(c, j));
            assert(used_keys(c).contains(key));
            let m = choose|m: int| 0 <= m < names.len() && key == padded_name(#[trigger] names[m]);
            lemma_valid_key(names[m]);
        }
        if exists|m: int| 0 <= m < names.len() && s == as_chars(#[trigger] names[m]) {
            let m = choose|m: int| 0 <= m < names.len() && s == as_chars(#[trigger] names[m]);
            let key = padded_name(names[m]);
            assert(used_keys(c).contains(key));
            let j = choose|j: int| 0 <= j < entry_count(c) && entry_used(#[trigger] entry_at(c, j)) && entry_key(entry_at(c, j)) == key;
            lemma_valid_key(names[m]);
        }
    }
}

/// Filling slot `s`, which was free or just past the end, with a record in
/// use under an ASCII name adds one name to the listing of the records past it.
proof fn lemma_listing_grows(c: Seq<u8>, c2: Seq<u8>, s: int, k: int)
    requires
        0 <= s,
        0 <= k <= entry_count(c),
        k <= entry_count(c2),
        forall|j: int| 0 <= j < entry_count(c) && j != s ==> #[trigger] entry_at(c2, j) == entry_at(c, j),
        s < entry_count(c) ==> !entry_used(entry_at(c, s)),
        s < entry_count(c2),
        entry_used(entry_at(c2, s)),
        all_ascii(trimmed(entry_key(entry_at(c2, s)))),
    ensures
        listing(c2, k).len() == listing(c, k).len() + (if k > s { 1int } else { 0 }),
    decreases k,
{
    if k > 0 {
        lemma_listing_grows(c, c2, s, k - 1);
    }
}

/// The listing of a finished chain of adds counts one name per add.
proof fn lemma_listing_count(cs: Seq<Seq<u8>>, i: int)
    requires
        0 <= i < cs.len(),
        listing(cs[0], entry_count(cs[0])).len() == 0,
        forall|m: int| 0 <= m < cs.len() - 1 ==> #[trigger] listing(cs[m + 1], entry_count(cs[m + 1])).len()
            == listing(cs[m], entry_count(cs[m])).len() + 1,
    ensures
        listing(cs[i], entry_count(cs[i])).len() == i,
    decreases i,
{
    if i > 0 {
        lemma_listing_count(cs, i - 1);
        assert(listing(cs[(i - 1) + 1], entry_count(cs[(i - 1) + 1])).len() == listing(cs[i - 1], entry_count(cs[i - 1])).len() + 1);
    }
}

/// Relies on `String::from_utf8`, which keeps the bytes it is given: bytes
/// below 128 are ASCII characters, one each.
#[verifier::external_body]
fn ascii_string(b: Vec<u8>) -> (r: String)
    requires
        all_ascii(b@),
    ensures
        r@ == as_chars(b@),
{
    match String::from_utf8(b) {
        Ok(s) => s,
        Err(_) => String::new(),
    }
}

/// The name field for `path`, or `None` when `path` is not a valid name.
fn name_key(path: &str) -> (r: Option<Vec<u8>>)
    ensures
        r is Some <==> valid_name(path.spec_bytes()),
        r matches Some(k) ==> k@ == padded_name(path.spec_bytes()) && k@.len() == 16,
{
    let bytes = path.as_bytes();
    let n = bytes.len();
    if n == 0 || n > NAME_MAX {
        return None;
    }
    let mut key: Vec<u8> = Vec::new();
    let mut i: usize = 0;
    while i < n
        invariant
            i <= n,
            n == bytes@.len(),
            n <= 15,
            bytes@ == path.spec_bytes(),
            key@ == bytes@.subrange(0, i as int),
            forall|j: int| 0 <= j < i ==> 0 < #[trigger] bytes@[j] < 128,
        decreases n - i,
    {
        let b = bytes[i];
        if b == 0 || b >= 128 {
            return None;
        }
        key.push(b);
        i += 1;
        assert(key@ =~= bytes@.subrange(0, i as int));
    }
    while i < NAME_FIELD
        invariant
            n <= i <= NAME_FIELD,
            n == bytes@.len(),
            key@ == bytes@ + Seq::new((i - n) as nat, |j: int| 0u8),
        decreases NAME_FIELD - i,
    {
        key.push(0);
        i += 1;
        assert(key@ =~= bytes@ + Seq::new((i - n) as nat, |j: int| 0u8));
    }
    Some(key)
}

/// A directory: the inumber of its inode, which is open while the handle lives.
pub struct Dir {
    inode: Size,
}

impl Dir {
    pub closed spec fn inumber(&self) -> Size {
        self.inode
    }

    /// Whether the directory's inode is open in `inodes` with a sound index on `disk`.
    pub open spec fn ready(&self, inodes: InodeManager, disk: Seq<Seq<u8>>) -> bool {
        &&& inodes.wf()
        &&& inodes.has(self.inumber())
        &&& tree_ok(inodes.entry(self.inumber()).spec_data(), disk, self.inumber())
    }

    /// The directory's content.
    pub open spec fn bytes(&self, inodes: InodeManager, disk: Seq<Seq<u8>>) -> Seq<u8> {
        content(inodes.entry(self.inumber()).spec_data(), disk)
    }

    fn init(inode: Size) -> (r: Self)
        ensures
            r.inumber() == inode,
    {
        Dir { inode }
    }

    /// Opens the root directory.
    pub fn open_root<D: BlockOperations>(inodes: &mut InodeManager, disk: &mut BlockDevice<D>) -> (r: Self)
        requires
            old(inodes).wf(),
            old(disk).wf(),
            ROOT_INODE < old(disk)@.len(),
            old(inodes).has(ROOT_INODE) ==> old(inodes).entry(ROOT_INODE).opens() < usize::MAX,
        ensures
            r.inumber() == ROOT_INODE,
            final(inodes).wf(),
            final(inodes).has(ROOT_INODE),
            final(disk).wf(),
            final(disk)@ == old(disk)@,
            final(disk).writes() == old(disk).writes(),
            old(inodes).has(ROOT_INODE) ==> final(inodes).entry(ROOT_INODE).spec_data() == old(inodes).entry(
                ROOT_INODE,
            ).spec_data(),
            !old(inodes).has(ROOT_INODE) ==> holds_inode(old(disk)@[ROOT_INODE as int], final(inodes).entry(ROOT_INODE).spec_data())
                && final(inodes).entry(ROOT_INODE).opens() == 1,
            forall|b: Size| b != ROOT_INODE ==> (#[trigger] final(inodes).has(b) == old(inodes).has(b)),
            forall|b: Size| b != ROOT_INODE && old(inodes).has(b) ==> #[trigger] final(inodes).entry(b) == old(inodes).entry(b),
    {
        Dir::init(inodes.open_inode(ROOT_INODE, disk))
    }

    /// Opens the directory that holds `path`. Directories are flat, so this
    /// is always the root.
    pub fn open_path<D: BlockOperations>(inodes: &mut InodeManager, disk: &mut BlockDevice<D>, path: &str) -> (r: Option<Self>)
        requires
            old(inodes).wf(),
            old(disk).wf(),
            ROOT_INODE < old(disk)@.len(),
            old(inodes).has(ROOT_INODE) ==> old(inodes).entry(ROOT_INODE).opens() < usize::MAX,
        ensures
            r matches Some(dir) && dir.inumber() == ROOT_INODE,
            final(inodes).wf(),
            final(inodes).has(ROOT_INODE),
            final(disk).wf(),
            final(disk)@ == old(disk)@,
            final(disk).writes() == old(disk).writes(),
            old(inodes).has(ROOT_INODE) ==> final(inodes).entry(ROOT_INODE).spec_data() == old(inodes).entry(
                ROOT_INODE,
            ).spec_data(),
            !old(inodes).has(ROOT_INODE) ==> holds_inode(old(disk)@[ROOT_INODE as int], final(inodes).entry(ROOT_INODE).spec_data())
                && final(inodes).entry(ROOT_INODE).opens() == 1,
            forall|b: Size| b != ROOT_INODE ==> (#[trigger] final(inodes).has(b) == old(inodes).has(b)),
            forall|b: Size| b != ROOT_INODE && old(inodes).has(b) ==> #[trigger] final(inodes).entry(b) == old(inodes).entry(b),
    {
        Some(Dir::open_root(inodes, disk))
    }

    /// Drops this handle's hold on the directory's inode.
    pub fn close(self, inodes: &mut InodeManager)
        requires
            old(inodes).wf(),
            old(inodes).has(self.inumber()),
        ensures
            final(inodes).wf(),
            old(inodes).entry(self.inumber()).opens() == 1 ==> !final(inodes).has(self.inumber()),
            old(inodes).entry(self.inumber()).opens() > 1 ==> final(inodes).has(self.inumber()),
            forall|b: Size| b != self.inumber() ==> (#[trigger] final(inodes).has(b) == old(inodes).has(b)),
            forall|b: Size| b != self.inumber() && old(inodes).has(b) ==> #[trigger] final(inodes).entry(b) == old(inodes).entry(b),
    {
        inodes.close(self.inode);
    }

    /// Whether `path` is a valid name.
    pub fn is_valid_name(path: &str) -> (r: bool)
        ensures
            r == valid_name(path.spec_bytes()),
    {
        name_key(path).is_some()
    }

    /// Reads record `j`.
    fn read_entry<D: BlockOperations>(&self, inodes: &InodeManager, j: usize, disk: &mut BlockDevice<D>) -> (r: Vec<u8>)
        requires
            self.ready(*inodes, old(disk)@),
            old(disk).wf(),
            j < entry_count(self.bytes(*inodes, old(disk)@)),
        ensures
            r@ == entry_at(self.bytes(*inodes, old(disk)@), j as int),
            final(disk).wf(),
            final(disk)@ == old(disk)@,
            final(disk).writes() == old(disk).writes(),
    {
        let inode = inodes.get(self.inode).unwrap();
        let mut raw: Vec<u8> = Vec::new();
        let mut i: usize = 0;
        while i < ENTRY_SIZE
            invariant
                i <= ENTRY_SIZE,
                raw@.len() == i,
            decreases ENTRY_SIZE - i,
        {
            raw.push(0);
            i += 1;
        }
        let start = (j * ENTRY_SIZE) as Ofs;
        inode.read_at(&mut raw, start, disk);
        proof {
            let c = self.bytes(*inodes, old(disk)@);
            assert(raw@ =~= entry_at(c, j as int));
        }
        raw
    }

    /// The inumber stored under name field `key`, if a record in use has it.
    fn lookup<D: BlockOperations>(&self, inodes: &InodeManager, key: &Vec<u8>, disk: &mut BlockDevice<D>) -> (r: Option<Size>)
        requires
            self.ready(*inodes, old(disk)@),
            old(disk).wf(),
            key@.len() == 16,
        ensures
            r == dir_lookup(self.bytes(*inodes, old(disk)@), key@),
            final(disk).wf(),
            final(disk)@ == old(disk)@,
            final(disk).writes() == old(disk).writes(),
    {
        let ghost c = self.bytes(*inodes, disk@);
        let inode = inodes.get(self.inode).unwrap();
        let count = (inode.length() / (ENTRY_SIZE as u64)) as usize;
        let mut j: usize = 0;
        while j < count
            invariant
                j <= count,
                count == entry_count(c),
                c == self.bytes(*inodes, disk@),
                self.ready(*inodes, disk@),
                disk.wf(),
                disk@ == old(disk)@,
                disk.writes() == old(disk).writes(),
                key@.len() == 16,
                first_match(c, key@, j as int) is None,
            decreases count - j,
        {
            let e = self.read_entry(inodes, j, disk);
            let mut same = e[24] != 0;
            let mut i: usize = 0;
            while i < NAME_FIELD
                invariant
                    i <= NAME_FIELD,
                    e@.len() == 25,
                    key@.len() == 16,
                    same == (e@[24] != 0 && forall|t: int| 0 <= t < i ==> e@[t] == key@[t]),
                decreases NAME_FIELD - i,
            {
                same = same && e[i] == key[i];
                i += 1;
            }
            proof {
                if same {
                    assert(entry_key(e@) =~= key@);
                } else if e@[24] != 0 {
                    assert(entry_key(e@) != key@) by {
                        let t = choose|t: int| 0 <= t < 16 && e@[t] != key@[t];
                        assert(entry_key(e@)[t] == e@[t]);
                    }
                }
                assert(e@ == entry_at(c, j as int));
                if same {
                    lemma_first_match_stable(c, key@, j as int, count as int);
                }
            }
            if same {
                let mut w: Vec<u8> = Vec::new();
                let mut t: usize = 16;
                while t < 24
                    invariant
                        16 <= t <= 24,
                        e@.len() == 25,
                        w@ == e@.subrange(16, t as int),
                    decreases 24 - t,
                {
                    w.push(e[t]);
                    t += 1;
                    assert(w@ =~= e@.subrange(16, t as int));
                }
                proof {
                    assert(entry_block(entry_at(c, j as int)) == spec_u64_from_le_bytes(w@));
                }
                return Some(u64_from_le_bytes(w.as_slice()));
            }
            j += 1;
        }
        None
    }

    /// The inumber of the file named `path` in this directory.
    pub fn open_file<D: BlockOperations>(&self, inodes: &InodeManager, path: &str, disk: &mut BlockDevice<D>) -> (r: Option<Size>)
        requires
            self.ready(*inodes, old(disk)@),
            old(disk).wf(),
            valid_name(path.spec_bytes()),
        ensures
            r == dir_lookup(self.bytes(*inodes, old(disk)@), padded_name(path.spec_bytes())),
            final(disk).wf(),
            final(disk)@ == old(disk)@,
            final(disk).writes() == old(disk).writes(),
    {
        let key = name_key(path).unwrap();
        self.lookup(inodes, &key, disk)
    }

    /// The names of the records in use, in slot order.
    pub fn list<D: BlockOperations>(&self, inodes: &InodeManager, disk: &mut BlockDevice<D>) -> (r: Vec<String>)
        requires
            self.ready(*inodes, old(disk)@),
            old(disk).wf(),
        ensures
            r@.len() == listing(self.bytes(*inodes, old(disk)@), entry_count(self.bytes(*inodes, old(disk)@))).len(),
            forall|i: int| 0 <= i < r@.len() ==> #[trigger] r@[i]@ == listing(
                self.bytes(*inodes, old(disk)@),
                entry_count(self.bytes(*inodes, old(disk)@)),
            )[i],
            final(disk).wf(),
            final(disk)@ == old(disk)@,
            final(disk).writes() == old(disk).writes(),
    {
        let ghost c = self.bytes(*inodes, disk@);
        let inode = inodes.get(self.inode).unwrap();
        let count = (inode.length() / (ENTRY_SIZE as u64)) as usize;
        let mut files: Vec<String> = Vec::new();
        let mut j: usize = 0;
        while j < count
            invariant
                j <= count,
                count == entry_count(c),
                c == self.bytes(*inodes, disk@),
                self.ready(*inodes, disk@),
                disk.wf(),
                disk@ == old(disk)@,
                disk.writes() == old(disk).writes(),
                files@.len() == listing(c, j as int).len(),
                forall|i: int| 0 <= i < files@.len() ==> #[trigger] files@[i]@ == listing(c, j as int)[i],
            decreases count - j,
        {
            let e = self.read_entry(inodes, j, disk);
            if e[24] != 0 {
                let mut name: Vec<u8> = Vec::new();
                let mut i: usize = 0;
                let mut ascii = true;
                while i < NAME_FIELD && e[i] != 0
                    invariant
                        i <= NAME_FIELD,
                        e@.len() == 25,
                        trimmed(e@.subrange(0, 16)) == name@ + trimmed(e@.subrange(i as int, 16)),
                        ascii == all_ascii(name@),
                    decreases NAME_FIELD - i,
                {
                    proof {
                        assert(e@.subrange(i as int, 16).drop_first() =~= e@.subrange(i + 1, 16));
                        assert(name@.push(e@[i as int]) + trimmed(e@.subrange(i + 1, 16)) =~= name@ + (seq![e@[i as int]] + trimmed(e@.subrange(i + 1, 16))));
                    }
                    proof {
                        lemma_ascii_push(name@, e@[i as int]);
                    }
                    ascii = ascii && e[i] < 128;
                    name.push(e[i]);
                    i += 1;
                }
                proof {
                    assert(trimmed(e@.subrange(i as int, 16)) =~= Seq::<u8>::empty());
                    assert(name@ + Seq::<u8>::empty() =~= name@);
                }
                if ascii {
                    files.push(ascii_string(name));
                }
            }
            j += 1;
            proof {
                assert(listing(c, j as int) == (if entry_used(entry_at(c, j - 1)) && all_ascii(trimmed(entry_key(entry_at(c, j - 1)))) {
                    listing(c, j - 1).push(as_chars(trimmed(entry_key(entry_at(c, j - 1)))))
                } else {
                    listing(c, j - 1)
                }));
            }
        }
        files
    }

    /// Adds a record for `path` with inumber `block`: into the first free
    /// slot, or, when every slot is in use, into a new slot at the end, for
    /// which the directory grows. Fails, changing nothing, when the name is
    /// not valid, is already in use, or the directory cannot grow.
    #[verifier::rlimit(100)]
    pub fn add<D: BlockOperations>(&self, inodes: &mut InodeManager, path: &str, block: Size, free_map: &mut FreeMap, disk: &mut BlockDevice<D>) -> (r: bool)
        requires
            self.ready(*old(inodes), old(disk)@),
            old(disk).wf(),
            old(free_map).wf(),
            old(free_map)@.len() == old(disk)@.len(),
            old(inodes).inumbers_marked(old(free_map)@),
            tree_marked(old(inodes).entry(self.inumber()).spec_data(), old(disk)@, self.inumber(), old(free_map)@),
            self.bytes(*old(inodes), old(disk)@).len() % 25 == 0,
            holds_inode(old(disk)@[self.inumber() as int], old(inodes).entry(self.inumber()).spec_data()),
        ensures
            holds_inode(final(disk)@[self.inumber() as int], final(inodes).entry(self.inumber()).spec_data()),
            self.ready(*final(inodes), final(disk)@),
            final(disk).wf(),
            final(free_map).wf(),
            final(disk)@.len() == old(disk)@.len(),
            final(free_map)@.len() == old(free_map)@.len(),
            final(inodes).inumbers_marked(final(free_map)@),
            tree_marked(final(inodes).entry(self.inumber()).spec_data(), final(disk)@, self.inumber(), final(free_map)@),
            self.bytes(*final(inodes), final(disk)@).len() % 25 == 0,
            final(inodes).entry(self.inumber()).opens() == old(inodes).entry(self.inumber()).opens(),
            forall|b: Size| b != self.inumber() ==> #[trigger] final(inodes).has(b) == old(inodes).has(b),
            forall|b: Size| b != self.inumber() && #[trigger] old(inodes).has(b) ==> final(inodes).entry(b) == old(inodes).entry(b),
            forall|i: int| 0 <= i < old(free_map)@.len() && old(free_map)@[i] ==> #[trigger] final(free_map)@[i],
            ({
                let d = old(inodes).entry(self.inumber()).spec_data();
                let c = self.bytes(*old(inodes), old(disk)@);
                let c2 = self.bytes(*final(inodes), final(disk)@);
                let name = path.spec_bytes();
                let key = padded_name(name);
                &&& r ==> valid_name(name) && dir_lookup(c, key) is None
                &&& valid_name(name) && dir_lookup(c, key) is None && first_free_slot(c, entry_count(c)) is Some ==> r
                &&& valid_name(name) && dir_lookup(c, key) is None && first_free_slot(c, entry_count(c)) is None
                    && can_grow(d.len as int, d.len + 25, old(free_map)@) ==> r
                &&& valid_name(name) && dir_lookup(c, key) is None && first_free_slot(c, entry_count(c)) is None
                    && !can_grow(d.len as int, d.len + 25, old(free_map)@) ==> !r
                &&& !r ==> c2 == c && final(disk)@ == old(disk)@ && final(free_map)@ == old(free_map)@
                    && final(inodes).entry(self.inumber()).spec_data() == d
                &&& r ==> used_keys(c2) == used_keys(c).insert(key)
                &&& r ==> listing(c2, entry_count(c2)).len() == listing(c, entry_count(c)).len() + 1
                &&& r ==> dir_lookup(c2, key) == Some(block)
                &&& r ==> match first_free_slot(c, entry_count(c)) {
                    Some(j) => c2 == overwrite(c, 25 * j, record(key, block), 25),
                    None => c2 == c + record(key, block),
                }
                &&& forall|x: Size|
                    x < old(disk)@.len() && x != self.inumber() && old(free_map)@[x as int] && !is_index_block(d, old(disk)@, x)
                        && !file_blocks(d, old(disk)@).contains(x) ==> #[trigger] final(disk)@[x as int] == old(disk)@[x as int]
            }),
    {
        let ghost d = inodes.entry(self.inode).spec_data();
        let ghost c = self.bytes(*inodes, disk@);
        let ghost disk0 = disk@;
        let ghost bits0 = free_map@;
        let ghost inodes0 = *inodes;
        proof {
            free_map.lemma_bounded();
        }
        let key = match name_key(path) {
            Some(k) => k,
            None => {
                return false;
            },
        };
        if self.lookup(inodes, &key, disk).is_some() {
            return false;
        }
        proof {
            lemma_lookup_used(c, key@);
            lemma_valid_key(path.spec_bytes());
        }
        let rec = make_record(&key, block);
        let count = (inodes.get(self.inode).unwrap().length() / (ENTRY_SIZE as u64)) as usize;
        let mut j: usize = 0;
        while j < count
            invariant
                j <= count,
                count == entry_count(c),
                c == self.bytes(*inodes, disk@),
                *inodes == inodes0,
                d == inodes.entry(self.inumber()).spec_data(),
                self.ready(*inodes, disk@),
                disk.wf(),
                disk@ == disk0,
                disk.writes() == old(disk).writes(),
                free_map@ == bits0,
                bits0 == old(free_map)@,
                disk0 == old(disk)@,
                inodes0 == *old(inodes),
                d == old(inodes).entry(self.inumber()).spec_data(),
                c == self.bytes(*old(inodes), old(disk)@),
                holds_inode(disk0[self.inumber() as int], d),
                self.inumber() < disk0.len(),
                free_map.wf(),
                bits0.len() == disk0.len(),
                inodes.inumbers_marked(bits0),
                tree_marked(d, disk0, self.inumber(), bits0),
                c.len() % 25 == 0,
                rec@ == record(key@, block),
                key@.len() == 16,
                key@ == padded_name(path.spec_bytes()),
                valid_name(path.spec_bytes()),
                all_ascii(trimmed(key@)),
                dir_lookup(c, key@) is None,
                !used_keys(c).contains(key@),
                first_free_slot(c, j as int) is None,
            decreases count - j,
        {
            let e = self.read_entry(inodes, j, disk);
            if e[24] == 0 {
                let inode = inodes.get(self.inode).unwrap();
                let start = (j * ENTRY_SIZE) as Ofs;
                let ghost before = disk@;
                let sl = rec.as_slice();
                let wrote = inode.write_at(sl, start, disk);
                proof {
                    lemma_first_free_slot_stable(c, j as int, count as int);
                    assert(inode.spec_data() == d);
                    assert(before == disk0);
                    assert(content(d, before) == c);
                    vstd::bytes::lemma_auto_spec_u64_to_from_le_bytes();
                    assert(sl@.len() == 25);
                    assert(wrote == 25);
                    assert(disk@.len() == disk0.len());
                    let c2 = self.bytes(*inodes, disk@);
                    assert(c2 == overwrite(c, 25 * j, record(key@, block), 25));
                    assert(!file_blocks(d, disk0).contains(self.inumber())) by {
                        if file_blocks(d, disk0).contains(self.inumber()) {
                            let k = choose|k: int| 0 <= k < file_blocks(d, disk0).len() && file_blocks(d, disk0)[k] == self.inumber();
                            assert(crate::inode::data_block(d, disk0, k) != self.inumber());
                        }
                    }
                    assert forall|k: int| 0 <= k < crate::inode::blocks_for(d.len as int) implies
                        #[trigger] bits0[crate::inode::data_block(d, disk@, k) as int] by {
                        assert(file_blocks(d, disk@)[k] == file_blocks(d, disk0)[k]);
                    }
                    lemma_added(c, c2, key@, block, j as int);
                }
                return true;
            }
            j += 1;
        }
        let old_len = inodes.get(self.inode).unwrap().length();
        proof {
            assert(first_free_slot(c, entry_count(c)) is None);
            assert(old_len <= 1024 * crate::inode::MAX_BLOCKS);
        }
        if !inodes.set_len_of(self.inode, old_len + ENTRY_SIZE as u64, free_map, disk) {
            return false;
        }
        let ghost disk1 = disk@;
        let ghost d1 = inodes.entry(self.inode).spec_data();
        let inode = inodes.get(self.inode).unwrap();
        let sl = rec.as_slice();
        let wrote = inode.write_at(sl, old_len as Ofs, disk);
        proof {
            let c1 = content(d1, disk1);
            let c2 = self.bytes(*inodes, disk@);
            assert(inode.spec_data() == d1);
            assert(d1.len == old_len + 25);
            vstd::bytes::lemma_auto_spec_u64_to_from_le_bytes();
            assert(sl@.len() == 25);
            assert(wrote == 25);
            assert(c2 == overwrite(c1, old_len as int, record(key@, block), 25));
            assert(transfer_len(d1.len as int, old_len as int, 25) == 25);
            assert(c2 =~= c + record(key@, block)) by {
                assert forall|i: int| 0 <= i < c2.len() implies c2[i] == (c + record(key@, block))[i] by {
                    if i < c.len() {
                        assert(c1[i] == c[i]);
                    }
                }
            }
            lemma_added(c, c2, key@, block, entry_count(c));
            assert(!file_blocks(d1, disk1).contains(self.inumber())) by {
                if file_blocks(d1, disk1).contains(self.inumber()) {
                    let k = choose|k: int| 0 <= k < file_blocks(d1, disk1).len() && file_blocks(d1, disk1)[k] == self.inumber();
                    assert(crate::inode::data_block(d1, disk1, k) != self.inumber());
                }
            }
            assert forall|k: int| 0 <= k < crate::inode::blocks_for(d1.len as int) implies
                #[trigger] free_map@[crate::inode::data_block(d1, disk@, k) as int] by {
                assert(file_blocks(d1, disk@)[k] == file_blocks(d1, disk1)[k]);
            }
            crate::free_map::lemma_first_free(bits0, bits0.len() as int);
            assert forall|x: Size| x < disk0.len() && x != self.inumber() && bits0[x as int] && !is_index_block(d, disk0, x)
                && !file_blocks(d, disk0).contains(x) implies #[trigger] disk@[x as int] == disk0[x as int] by {
                assert(disk1[x as int] == disk0[x as int]);
                if file_blocks(d1, disk1).contains(x) {
                    let fr = first_free(bits0, bits0.len() as int);
                    let n = crate::inode::blocks_for(d.len as int);
                    let n2 = crate::inode::blocks_for(d1.len as int);
                    let need = (n2 - n) + crate::inode::index_count(n2) - crate::inode::index_count(n);
                    assert(is_index_block(d, disk0, x) || file_blocks(d, disk0).contains(x) || (n2 > n && fr.take(need).contains(x)));
                    let k = choose|k: int| 0 <= k < fr.take(need).len() && fr.take(need)[k] == x;
                    assert(!bits0[fr[k] as int]);
                }
            }
        }
        // The record grew: keep the inode block in step with it.
        let ghost disk_w = disk@;
        inodes.store_inode(self.inode, disk);
        proof {
            assert forall|x: Size| x < disk_w.len() && free_map@[x as int] && x != self.inumber() implies
                #[trigger] disk@[x as int] == disk_w[x as int] by {}
            crate::inode::lemma_tree_stable(d1, disk_w, disk@, self.inumber(), free_map@, free_map@);
            assert forall|x: Size| x < disk0.len() && x != self.inumber() && bits0[x as int] && !is_index_block(d, disk0, x)
                && !file_blocks(d, disk0).contains(x) implies #[trigger] disk@[x as int] == disk0[x as int] by {
                assert(disk_w[x as int] == disk0[x as int]);
            }
        }
        true
    }
}

/// The record for name field `key` and inumber `block`.
fn make_record(key: &Vec<u8>, block: Size) -> (r: Vec<u8>)
    requires
        key@.len() == 16,
    ensures
        r@ == record(key@, block),
{
    let mut r: Vec<u8> = Vec::new();
    let mut i: usize = 0;
    while i < NAME_FIELD
        invariant
            i <= NAME_FIELD,
            key@.len() == 16,
            r@ == key@.subrange(0, i as int),
        decreases NAME_FIELD - i,
    {
        r.push(key[i]);
        i += 1;
        assert(r@ =~= key@.subrange(0, i as int));
    }
    let w = u64_to_le_bytes(block);
    let mut t: usize = 0;
    while t < 8
        invariant
            t <= 8,
            w@.len() == 8,
            key@.len() == 16,
            w@ == spec_u64_to_le_bytes(block),
            r@ == key@ + w@.subrange(0, t as int),
        decreases 8 - t,
    {
        r.push(w[t]);
        t += 1;
        assert(r@ =~= key@ + w@.subrange(0, t as int));
    }
    r.push(1);
    assert(r@ =~= record(key@, block));
    r
}

} // verus!
