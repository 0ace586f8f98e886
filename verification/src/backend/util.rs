use rand::distributions::Alphanumeric;
use rand::Rng;
use sha2::{Digest, Sha512};
use crate::backend::database::User;
use vstd::arithmetic::power::pow;
use vstd::prelude::*;
use vstd::string::{StrSliceExecFns, StringExecFns};
use vstd::utf8::encode_utf8;

verus! {

/// The lower-case hexadecimal digit for a value below 16.
pub open spec fn hex_digit(n: int) -> char {
    if n < 10 {
        (n + 48) as char
    } else {
        (n + 87) as char
    }
}

/// Lower-case hexadecimal rendering of a byte string: two digits per byte,
/// high nibble first.
pub open spec fn hex_lower(bytes: Seq<u8>) -> Seq<char>
    decreases bytes.len(),
{
    if bytes.len() == 0 {
        Seq::empty()
    } else {
        hex_lower(bytes.drop_last()) + seq![
            hex_digit(bytes.last() as int / 16),
            hex_digit(bytes.last() as int % 16),
        ]
    }
}

/// The SHA-512 digest of a byte string.
pub uninterp spec fn sha512(data: Seq<u8>) -> Seq<u8>;

/// What `hash_key` gives for a key and a salt: the lower-case hex rendering
/// of the SHA-512 digest of the UTF-8 bytes of the key followed by the salt.
pub open spec fn spec_hash_key(key: Seq<char>, salt: Seq<char>) -> Seq<char> {
    hex_lower(sha512(encode_utf8(key + salt)))
}

/// Calls `sha2::Sha512::digest` (the `Digest` trait of the `digest` crate).
/// Trusted: the result is the SHA-512 digest of `data`, named `sha512`, and
/// it is 64 bytes long (`Sha512`'s output size is `U64`).
#[verifier::external_body]
fn sha512_digest(data: &[u8]) -> (digest: Vec<u8>)
    ensures
        digest@ == sha512(data@),
        digest@.len() == 64,
{
    Sha512::digest(data).to_vec()
}

/// Calls `String::push`. Trusted: the character is appended at the end.
#[verifier::external_body]
fn push_char(s: &mut String, c: char)
    ensures
        final(s)@ == old(s)@.push(c),
{
    s.push(c);
}

fn hex_char(n: u8) -> (c: char)
    requires
        n < 16,
    ensures
        c == hex_digit(n as int),
{
    if n < 10 {
        (n + 48) as char
    } else {
        (n + 87) as char
    }
}

/// Renders bytes as lower-case hexadecimal, two digits per byte.
pub fn to_hex_lower(bytes: &[u8]) -> (hex: String)
    ensures
        hex@ == hex_lower(bytes@),
{
    let mut hex = String::new();
    let n = bytes.len();
    let mut i: usize = 0;
    while i < n
        invariant
            n == bytes@.len(),
            i <= n,
            hex@ == hex_lower(bytes@.take(i as int)),
        decreases n - i,
    {
        let b = bytes[i];
        push_char(&mut hex, hex_char(b / 16));
        push_char(&mut hex, hex_char(b % 16));
        assert(bytes@.take(i + 1).drop_last() =~= bytes@.take(i as int));
        i = i + 1;
    }
    assert(bytes@.take(n as int) =~= bytes@);
    hex
}

/// Hashes an API key with the server's salt: the SHA-512 digest of the key
/// followed by the salt, rendered as lower-case hexadecimal.
pub fn hash_key(key: &str, salt: &str) -> (hash: String)
    ensures
        hash@ == spec_hash_key(key@, salt@),
        hash@ == hex_lower(sha512(encode_utf8(key@ + salt@))),
        hash@.len() == 128,
{
    let salted = String::from_str(key).concat(salt);
    let digest = sha512_digest(salted.as_str().as_bytes());
    let hash = to_hex_lower(digest.as_slice());
    proof {
        lemma_hex_lower_len(digest@);
    }
    hash
}

/// The hex rendering has two digits per byte.
pub proof fn lemma_hex_lower_len(bytes: Seq<u8>)
    ensures
        hex_lower(bytes).len() == 2 * bytes.len(),
    decreases bytes.len(),
{
    if bytes.len() > 0 {
        lemma_hex_lower_len(bytes.drop_last());
    }
}

/// The value of a lower-case hexadecimal digit: `0`-`9` stand for 0 to 9,
/// `a`-`f` for 10 to 15; any other character for -1.
pub open spec fn hex_value(c: char) -> int {
    if '0' <= c && c <= '9' {
        c as int - 48
    } else if 'a' <= c && c <= 'f' {
        c as int - 87
    } else {
        -1
    }
}

/// A hex digit reads back as its value.
proof fn lemma_hex_digit_value(n: int)
    requires
        0 <= n < 16,
    ensures
        hex_value(hex_digit(n)) == n,
{
    assert(((n + 48) as char) as int == n + 48);
    assert(((n + 87) as char) as int == n + 87);
}

/// The hex rendering of a byte string has two lower-case hex digits per
/// byte, and byte `i` is read back from digits `2i` (high) and `2i + 1`
/// (low).
pub proof fn lemma_hex_lower_decodes(bytes: Seq<u8>)
    ensures
        hex_lower(bytes).len() == 2 * bytes.len(),
        forall|j: int| 0 <= j < hex_lower(bytes).len() ==> 0 <= #[trigger] hex_value(hex_lower(bytes)[j]) < 16,
        forall|i: int|
            #![trigger bytes[i]]
            0 <= i < bytes.len() ==> hex_value(hex_lower(bytes)[2 * i]) * 16 + hex_value(
                hex_lower(bytes)[2 * i + 1],
            ) == bytes[i],
    decreases bytes.len(),
{
    if bytes.len() > 0 {
        let front = bytes.drop_last();
        lemma_hex_lower_decodes(front);
        let h = hex_lower(bytes);
        let hf = hex_lower(front);
        let b = bytes.last();
        lemma_hex_digit_value(b as int / 16);
        lemma_hex_digit_value(b as int % 16);
        assert(h == hf + seq![hex_digit(b as int / 16), hex_digit(b as int % 16)]);
        assert forall|j: int| 0 <= j < h.len() implies 0 <= #[trigger] hex_value(h[j]) < 16 by {
            if j < hf.len() {
                assert(h[j] == hf[j]);
            }
        }
        assert forall|i: int| #![trigger bytes[i]] 0 <= i < bytes.len() implies hex_value(h[2 * i]) * 16
            + hex_value(h[2 * i + 1]) == bytes[i] by {
            if i < front.len() {
                assert(front[i] == bytes[i]);
                assert(h[2 * i] == hf[2 * i]);
                assert(h[2 * i + 1] == hf[2 * i + 1]);
            } else {
                assert(h[2 * i] == hex_digit(b as int / 16));
                assert(h[2 * i + 1] == hex_digit(b as int % 16));
            }
        }
    }
}

/// An ASCII letter or digit: what `rand`'s `Alphanumeric` distribution draws.
pub open spec fn is_alphanumeric(c: char) -> bool {
    ||| ('0' <= c && c <= '9')
    ||| ('A' <= c && c <= 'Z')
    ||| ('a' <= c && c <= 'z')
}

/// Calls `rand::thread_rng()` and samples `rand::distributions::Alphanumeric`
/// from it once. Trusted: the character is an ASCII letter or digit (the
/// distribution draws from `A-Z`, `a-z` and `0-9`). Which one it is depends
/// on chance and is not stated.
#[verifier::external_body]
fn sample_alphanumeric() -> (c: char)
    ensures
        is_alphanumeric(c),
{
    char::from(rand::thread_rng().sample(Alphanumeric))
}

/// A fresh random string of `length` ASCII letters and digits.
pub fn random_string(length: usize) -> (s: String)
    ensures
        s@.len() == length,
        forall|i: int| 0 <= i < length ==> is_alphanumeric(#[trigger] s@[i]),
{
    let mut s = String::new();
    let mut i: usize = 0;
    while i < length
        invariant
            i <= length,
            s@.len() == i,
            forall|j: int| 0 <= j < i ==> is_alphanumeric(#[trigger] s@[j]),
        decreases length - i,
    {
        let c = sample_alphanumeric();
        push_char(&mut s, c);
        i = i + 1;
    }
    s
}

/// The number of entries of a directory as the `u8` that the statistics
/// report; the number must fit.
pub fn count_dir(entries: usize) -> (count: u8)
    requires
        entries <= 255,
    ensures
        count == entries,
{
    entries as u8
}

/// The sum of a sequence of sizes.
pub open spec fn total(sizes: Seq<u64>) -> int
    decreases sizes.len(),
{
    if sizes.len() == 0 {
        0
    } else {
        total(sizes.drop_last()) + sizes.last()
    }
}

/// A prefix never sums to more than the whole.
pub proof fn lemma_total_prefix(sizes: Seq<u64>, n: int)
    requires
        0 <= n <= sizes.len(),
    ensures
        total(sizes.take(n)) <= total(sizes),
    decreases sizes.len() - n,
{
    if n < sizes.len() {
        lemma_total_prefix(sizes, n + 1);
        assert(sizes.take(n + 1).drop_last() =~= sizes.take(n));
    } else {
        assert(sizes.take(n) =~= sizes);
    }
}

/// Totals add up: the total of two runs of sizes joined is the sum of their
/// totals, and a single size totals to itself.
pub proof fn lemma_total_concat(a: Seq<u64>, b: Seq<u64>, x: u64)
    ensures
        total(a + b) == total(a) + total(b),
        total(seq![x]) == x,
        total(Seq::<u64>::empty()) == 0,
    decreases b.len(),
{
    assert(seq![x].drop_last() =~= Seq::<u64>::empty());
    assert(total(seq![x].drop_last()) == 0);
    assert(seq![x].last() == x);
    if b.len() == 0 {
        assert(a + b =~= a);
    } else {
        lemma_total_concat(a, b.drop_last(), x);
        assert((a + b).drop_last() =~= a + b.drop_last());
        assert((a + b).last() == b.last());
    }
}

/// The total size of a directory from the sizes of its entries; `None` where
/// the total does not fit in a `u64`.
pub fn dir_size(sizes: &Vec<u64>) -> (size: Option<u64>)
    ensures
        match size {
            Some(s) => s == total(sizes@),
            None => total(sizes@) > u64::MAX,
        },
{
    let n = sizes.len();
    let mut size: u64 = 0;
    let mut i: usize = 0;
    while i < n
        invariant
            n == sizes@.len(),
            i <= n,
            size == total(sizes@.take(i as int)),
        decreases n - i,
    {
        assert(sizes@.take(i + 1).drop_last() =~= sizes@.take(i as int));
        match size.checked_add(sizes[i]) {
            Some(s) => {
                size = s;
            },
            None => {
                proof {
                    lemma_total_prefix(sizes@, i + 1);
                }
                return None;
            },
        }
        i = i + 1;
    }
    assert(sizes@.take(n as int) =~= sizes@);
    Some(size)
}

/// An ASCII decimal digit, what `char::is_digit(10)` accepts.
pub open spec fn is_ascii_digit(c: char) -> bool {
    '0' <= c && c <= '9'
}

/// The digits and commas of a text, in order, everything else dropped.
pub open spec fn digits_and_commas(text: Seq<char>) -> Seq<char> {
    text.filter(|c: char| is_ascii_digit(c) || c == ',')
}

/// The part of a text before its first comma (all of it where it has none).
pub open spec fn first_field(text: Seq<char>) -> Seq<char>
    decreases text.len(),
{
    if text.len() == 0 {
        text
    } else if text[0] == ',' {
        Seq::empty()
    } else {
        seq![text[0]] + first_field(text.drop_first())
    }
}

/// The number that a string of decimal digits denotes.
pub open spec fn decimal_value(digits: Seq<char>) -> int
    decreases digits.len(),
{
    if digits.len() == 0 {
        0
    } else {
        decimal_value(digits.drop_last()) * 10 + (digits.last() as int - 48)
    }
}

/// What `last_upload` reads from the debug rendering of a modification time:
/// keep its digits and commas, take what stands before the first comma, and
/// read it as a `usize`; nothing where that is empty or too large.
pub open spec fn spec_last_upload(text: Seq<char>) -> Option<usize> {
    let field = first_field(digits_and_commas(text));
    if field.len() > 0 && decimal_value(field) <= usize::MAX {
        Some(decimal_value(field) as usize)
    } else {
        None
    }
}

/// Where the first `j` characters hold no comma and the next one is a comma
/// (or there is none), the first field is those `j` characters.
pub proof fn lemma_first_field_prefix(text: Seq<char>, j: int)
    requires
        0 <= j <= text.len(),
        forall|k: int| 0 <= k < j ==> text[k] != ',',
        j == text.len() || text[j] == ',',
    ensures
        first_field(text) == text.take(j),
    decreases j,
{
    if j == 0 {
        assert(text.take(0) =~= Seq::<char>::empty());
    } else {
        let rest = text.drop_first();
        assert forall|k: int| 0 <= k < j - 1 implies rest[k] != ',' by {
            assert(rest[k] == text[k + 1]);
        }
        lemma_first_field_prefix(rest, j - 1);
        assert(seq![text[0]] + rest.take(j - 1) =~= text.take(j));
    }
}

/// Reads the seconds out of the debug rendering of a directory's modification
/// time (`SystemTime { tv_sec: .., tv_nsec: .. }`): the digits before the
/// first comma, once everything but digits and commas is dropped. `None`
/// where there are no such digits or their value does not fit in a `usize`.
pub fn last_upload(modified: &str) -> (secs: Option<usize>)
    ensures
        secs == spec_last_upload(modified@),
{
    let n = modified.unicode_len();
    let mut kept: Vec<char> = Vec::new();
    let mut i: usize = 0;
    while i < n
        invariant
            n == modified@.len(),
            i <= n,
            kept@ == digits_and_commas(modified@.take(i as int)),
            forall|k: int| 0 <= k < kept@.len() ==> is_ascii_digit(#[trigger] kept@[k]) || kept@[k] == ',',
        decreases n - i,
    {
        let c = modified.get_char(i);
        proof {
            reveal_with_fuel(Seq::<_>::filter, 1);
            assert(modified@.take(i + 1).drop_last() =~= modified@.take(i as int));
        }
        if ('0' <= c && c <= '9') || c == ',' {
            kept.push(c);
        }
        i = i + 1;
    }
    assert(modified@.take(n as int) =~= modified@);
    let m = kept.len();
    let mut j: usize = 0;
    let mut value: usize = 0;
    let mut overflow = false;
    while j < m && kept[j] != ','
        invariant
            m == kept@.len(),
            j <= m,
            forall|k: int| 0 <= k < m ==> is_ascii_digit(#[trigger] kept@[k]) || kept@[k] == ',',
            forall|k: int| 0 <= k < j ==> #[trigger] kept@[k] != ',',
            decimal_value(kept@.take(j as int)) >= 0,
            !overflow ==> value == decimal_value(kept@.take(j as int)),
            overflow ==> decimal_value(kept@.take(j as int)) > usize::MAX,
        decreases m - j,
    {
        let c = kept[j];
        let d = (c as u32 - 48) as usize;
        assert(kept@.take(j + 1).drop_last() =~= kept@.take(j as int));
        if !overflow {
            match value.checked_mul(10) {
                Some(v) => match v.checked_add(d) {
                    Some(w) => {
                        value = w;
                    },
                    None => {
                        overflow = true;
                    },
                },
                None => {
                    overflow = true;
                },
            }
        }
        j = j + 1;
    }
    proof {
        lemma_first_field_prefix(kept@, j as int);
    }
    if j == 0 || overflow {
        None
    } else {
        Some(value)
    }
}

/// A leading digit counts by its place: the value of a digit followed by
/// more digits is the digit times ten to the number of digits after it, plus
/// the value of those; a single digit is worth its own value.
pub proof fn lemma_decimal_value_leading_digit(c: char, rest: Seq<char>)
    ensures
        decimal_value(seq![c]) == c as int - 48,
        decimal_value(seq![c] + rest) == (c as int - 48) * pow(10, rest.len()) + decimal_value(rest),
    decreases rest.len(),
{
    reveal(pow);
    assert(seq![c].drop_last() =~= Seq::<char>::empty());
    assert(decimal_value(Seq::<char>::empty()) == 0);
    if rest.len() == 0 {
        assert(seq![c] + rest =~= seq![c]);
        assert(pow(10, 0) == 1);
    } else {
        let front = rest.drop_last();
        lemma_decimal_value_leading_digit(c, front);
        let whole = seq![c] + rest;
        assert(whole.drop_last() =~= seq![c] + front);
        assert(whole.last() == rest.last());
        let d = c as int - 48;
        let p = pow(10, front.len());
        assert(pow(10, rest.len()) == 10 * p);
        let vf = decimal_value(front);
        let l = rest.last() as int - 48;
        assert((d * p + vf) * 10 + l == d * (10 * p) + (vf * 10 + l)) by (nonlinear_arith);
    }
}

/// The decimal rendering of a natural number, without leading zeros.
pub open spec fn decimal(n: nat) -> Seq<char>
    decreases n,
{
    if n < 10 {
        seq![(n + 48) as char]
    } else {
        decimal(n / 10).push((n % 10 + 48) as char)
    }
}

/// A decimal rendering is a non-empty run of digits that denotes its number.
pub proof fn lemma_decimal(n: nat)
    ensures
        decimal(n).len() > 0,
        forall|k: int| 0 <= k < decimal(n).len() ==> is_ascii_digit(#[trigger] decimal(n)[k]),
        decimal_value(decimal(n)) == n,
    decreases n,
{
    assert(((n % 10 + 48) as char) as int == n % 10 + 48);
    let d = decimal(n);
    if n < 10 {
        assert(d.drop_last() =~= Seq::<char>::empty());
        assert(decimal_value(d.drop_last()) == 0);
        assert(n % 10 == n);
    } else {
        lemma_decimal(n / 10);
        assert(d.drop_last() =~= decimal(n / 10));
        assert(d.last() == (n % 10 + 48) as char);
        assert(decimal_value(d) == decimal_value(decimal(n / 10)) * 10 + n % 10);
        assert forall|k: int| 0 <= k < d.len() implies is_ascii_digit(#[trigger] d[k]) by {
            if k < d.len() - 1 {
                assert(d[k] == decimal(n / 10)[k]);
            }
        }
    }
}

proof fn lemma_kept_text(text: Seq<char>)
    requires
        forall|k: int| 0 <= k < text.len() ==> is_ascii_digit(#[trigger] text[k]) || text[k] == ',',
    ensures
        digits_and_commas(text) == text,
    decreases text.len(),
{
    reveal_with_fuel(Seq::<_>::filter, 1);
    if text.len() > 0 {
        lemma_kept_text(text.drop_last());
        assert(text.drop_last().push(text.last()) =~= text);
    }
}

proof fn lemma_dropped_text(text: Seq<char>)
    requires
        forall|k: int| 0 <= k < text.len() ==> !is_ascii_digit(#[trigger] text[k]) && text[k] != ',',
    ensures
        digits_and_commas(text) == Seq::<char>::empty(),
    decreases text.len(),
{
    reveal_with_fuel(Seq::<_>::filter, 1);
    if text.len() > 0 {
        lemma_dropped_text(text.drop_last());
    }
}

proof fn lemma_kept_concat(a: Seq<char>, b: Seq<char>)
    ensures
        digits_and_commas(a + b) == digits_and_commas(a) + digits_and_commas(b),
    decreases b.len(),
{
    reveal_with_fuel(Seq::<_>::filter, 1);
    if b.len() == 0 {
        assert(a + b =~= a);
        assert(digits_and_commas(a) + digits_and_commas(b) =~= digits_and_commas(a));
    } else {
        lemma_kept_concat(a, b.drop_last());
        assert((a + b).drop_last() =~= a + b.drop_last());
        assert((a + b).last() == b.last());
        let ka = digits_and_commas(a);
        let kb = digits_and_commas(b.drop_last());
        assert((ka + kb).push(b.last()) =~= ka + kb.push(b.last()));
    }
}

proof fn lemma_kept_digits_then_comma(d: Seq<char>)
    requires
        forall|k: int| 0 <= k < d.len() ==> is_ascii_digit(#[trigger] d[k]),
    ensures
        digits_and_commas(d + seq![',']) == d + seq![','],
{
    let head = d + seq![','];
    assert forall|k: int| 0 <= k < head.len() implies is_ascii_digit(#[trigger] head[k]) || head[k] == ',' by {
        if k < d.len() {
            assert(head[k] == d[k]);
        }
    }
    lemma_kept_text(head);
}

proof fn lemma_kept_after_dropped(prefix: Seq<char>, text: Seq<char>)
    requires
        forall|k: int| 0 <= k < prefix.len() ==> !is_ascii_digit(#[trigger] prefix[k]) && prefix[k] != ',',
    ensures
        digits_and_commas(prefix + text) == digits_and_commas(text),
{
    lemma_dropped_text(prefix);
    lemma_kept_concat(prefix, text);
    assert(Seq::<char>::empty() + digits_and_commas(text) =~= digits_and_commas(text));
}

proof fn lemma_kept_reading(prefix: Seq<char>, d: Seq<char>, rest: Seq<char>)
    requires
        forall|k: int| 0 <= k < prefix.len() ==> !is_ascii_digit(#[trigger] prefix[k]) && prefix[k] != ',',
        forall|k: int| 0 <= k < d.len() ==> is_ascii_digit(#[trigger] d[k]),
    ensures
        digits_and_commas(prefix + d + seq![','] + rest) == d + seq![','] + digits_and_commas(rest),
{
    let head = d + seq![','];
    assert(prefix + d + seq![','] + rest =~= prefix + (head + rest));
    lemma_kept_after_dropped(prefix, head + rest);
    lemma_kept_concat(head, rest);
    lemma_kept_digits_then_comma(d);
}

proof fn lemma_field_of_reading(d: Seq<char>, rest: Seq<char>)
    requires
        forall|k: int| 0 <= k < d.len() ==> is_ascii_digit(#[trigger] d[k]),
    ensures
        first_field(d + seq![','] + rest) == d,
{
    let kept = d + seq![','] + rest;
    assert forall|k: int| 0 <= k < d.len() implies kept[k] == d[k] && kept[k] != ',' by {
        assert(is_ascii_digit(d[k]));
    }
    assert(kept[d.len() as int] == ',');
    lemma_first_field_prefix(kept, d.len() as int);
    assert(kept.take(d.len() as int) =~= d);
}

/// The seconds of a rendered modification time are read back: after a
/// prefix without digits or commas (such as `SystemTime { tv_sec: `), the
/// decimal seconds and a comma, whatever follows, `last_upload` yields the
/// seconds.
pub proof fn lemma_last_upload_reads_seconds(prefix: Seq<char>, secs: usize, rest: Seq<char>)
    requires
        forall|k: int| 0 <= k < prefix.len() ==> !is_ascii_digit(#[trigger] prefix[k]) && prefix[k] != ',',
    ensures
        spec_last_upload(prefix + decimal(secs as nat) + seq![','] + rest) == Some(secs),
{
    let d = decimal(secs as nat);
    lemma_decimal(secs as nat);
    lemma_kept_reading(prefix, d, rest);
    lemma_field_of_reading(d, digits_and_commas(rest));
}

/// The number of accounts: the number of rows of the `Users` table.
pub fn user_count(users: &Vec<User>) -> (count: usize)
    ensures
        count == users@.len(),
{
    users.len()
}

} // verus!
