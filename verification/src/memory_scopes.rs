//! Naming of per-chat ("scoped") memory stores.
//!
//! A thread configured with a memory scope key keeps its private memories in
//! a directory named by [`memory_scope_dir_name`], next to the global memory
//! root, and its extracted memories live in the `scope:<key>` partition of
//! the memory database. Threads without a scope key use only the global store.

use vstd::prelude::*;
use crate::text::push_char;
use crate::text::push_str;
use crate::text::chars_of;
use crate::text::chars_eq;
use crate::text::string_of;
use crate::text::push_chars;

verus! {

/// Database partition (and consolidation job key) of the global memory store.
pub const GLOBAL_MEMORY_PARTITION: &'static str = "global";

/// The characters of [`GLOBAL_MEMORY_PARTITION`].
pub open spec fn global_partition_spec() -> Seq<char> {
    seq!['g', 'l', 'o', 'b', 'a', 'l']
}

/// The partition name `scope:<key>`.
pub open spec fn scope_partition_spec(scope_key: Seq<char>) -> Seq<char> {
    seq!['s', 'c', 'o', 'p', 'e', ':'] + scope_key
}

/// The global partition name as a `String`.
pub fn global_memory_partition() -> (r: String)
    ensures
        r@ == global_partition_spec(),
{
    let mut r = String::new();
    push_char(&mut r, 'g');
    push_char(&mut r, 'l');
    push_char(&mut r, 'o');
    push_char(&mut r, 'b');
    push_char(&mut r, 'a');
    push_char(&mut r, 'l');
    assert(r@ =~= global_partition_spec());
    r
}

/// Database partition (and consolidation job key) of one memory scope.
pub fn memory_scope_partition(scope_key: &str) -> (r: String)
    ensures
        r@ == scope_partition_spec(scope_key@),
{
    let mut r = String::new();
    push_char(&mut r, 's');
    push_char(&mut r, 'c');
    push_char(&mut r, 'o');
    push_char(&mut r, 'p');
    push_char(&mut r, 'e');
    push_char(&mut r, ':');
    push_str(&mut r, scope_key);
    assert(r@ =~= scope_partition_spec(scope_key@));
    r
}

/// Characters kept verbatim in a directory name.
pub open spec fn is_safe_dir_char(c: char) -> bool {
    ('a' <= c && c <= 'z') || ('0' <= c && c <= '9') || c == '-' || c == '_'
}

/// How one key character appears in the directory name.
pub open spec fn sanitize_char(c: char) -> char {
    if is_safe_dir_char(c) {
        c
    } else if 'A' <= c && c <= 'Z' {
        ((c as u32) + 32) as char
    } else {
        '_'
    }
}

/// The sanitized form of a key: its first 64 characters, lowercased, with
/// every other character than `[a-z0-9_-]` replaced by `_`.
pub open spec fn sanitized_spec(key: Seq<char>) -> Seq<char> {
    Seq::new(
        if key.len() <= 64 { key.len() } else { 64 },
        |i: int| sanitize_char(key[i]),
    )
}

pub open spec fn is_lower_hex_char(c: char) -> bool {
    ('0' <= c && c <= '9') || ('a' <= c && c <= 'f')
}

/// Whether `name` ends like a hashed directory name (`-<16 lowercase hex>`).
pub open spec fn has_hash_suffix_spec(name: Seq<char>) -> bool {
    &&& name.len() >= 17
    &&& name[name.len() - 17] == '-'
    &&& forall|i: int| name.len() - 16 <= i < name.len() ==> is_lower_hex_char(#[trigger] name[i])
}

/// Whether `name` is a Windows device name (`con`, `prn`, `aux`, `nul`,
/// `com<digit>`, `lpt<digit>`).
pub open spec fn is_windows_device_name_spec(name: Seq<char>) -> bool {
    ||| name == seq!['c', 'o', 'n']
    ||| name == seq!['p', 'r', 'n']
    ||| name == seq!['a', 'u', 'x']
    ||| name == seq!['n', 'u', 'l']
    ||| (name.len() == 4 && (name.take(3) == seq!['c', 'o', 'm'] || name.take(3) == seq![
        'l',
        'p',
        't',
    ]) && '0' <= name[3] && name[3] <= '9')
}

pub open spec fn fnv_offset_basis() -> u64 {
    0xcbf2_9ce4_8422_2325
}

pub open spec fn fnv_prime() -> u64 {
    0x0000_0100_0000_01b3
}

/// 64-bit FNV-1a of a byte sequence.
pub open spec fn fnv1a(bytes: Seq<u8>) -> u64
    decreases bytes.len(),
{
    if bytes.len() == 0 {
        fnv_offset_basis()
    } else {
        (fnv1a(bytes.drop_last()) ^ (bytes.last() as u64)).wrapping_mul(fnv_prime())
    }
}

pub open spec fn hex_char(d: nat) -> char {
    if d < 10 {
        ((d + 48) as u32) as char
    } else {
        ((d + 87) as u32) as char
    }
}

/// The last `n` hexadecimal digits of `value`, most significant first,
/// zero-padded.
pub open spec fn hex_digits(value: nat, n: nat) -> Seq<char>
    decreases n,
{
    if n == 0 {
        seq![]
    } else {
        hex_digits(value / 16, (n - 1) as nat).push(hex_char(value % 16))
    }
}

/// The directory name of a scope key: the sanitized key itself when that
/// is the key unchanged, carries no hash suffix and is no device name;
/// otherwise the sanitized key, `-` and the 16 hex digits of the key's
/// FNV-1a hash.
pub open spec fn dir_name_spec(key: Seq<char>) -> Seq<char> {
    let s = sanitized_spec(key);
    if s == key && !has_hash_suffix_spec(s) && !is_windows_device_name_spec(s) {
        s
    } else {
        s.push('-') + hex_digits(fnv1a(vstd::utf8::encode_utf8(key)) as nat, 16)
    }
}

fn sanitize_char_exec(c: char) -> (r: char)
    ensures
        r == sanitize_char(c),
{
    if ('a' <= c && c <= 'z') || ('0' <= c && c <= '9') || c == '-' || c == '_' {
        c
    } else if 'A' <= c && c <= 'Z' {
        let b: u8 = c as u8;
        ((b + 32) as char)
    } else {
        '_'
    }
}

fn sanitized_exec(key: &Vec<char>) -> (r: Vec<char>)
    ensures
        r@ == sanitized_spec(key@),
{
    let n: usize = if key.len() <= 64 { key.len() } else { 64 };
    let mut r: Vec<char> = Vec::new();
    let mut i: usize = 0;
    while i < n
        invariant
            n <= key.len(),
            n == if key@.len() <= 64 { key@.len() } else { 64 },
            i <= n,
            r@ == sanitized_spec(key@).take(i as int),
        decreases n - i,
    {
        r.push(sanitize_char_exec(key[i]));
        i = i + 1;
        assert(r@ =~= sanitized_spec(key@).take(i as int));
    }
    assert(r@ =~= sanitized_spec(key@));
    r
}

fn is_lower_hex_exec(c: char) -> (r: bool)
    ensures
        r == is_lower_hex_char(c),
{
    ('0' <= c && c <= '9') || ('a' <= c && c <= 'f')
}

/// Whether `name` ends like a hashed directory name (`-<16 lowercase hex>`).
fn has_hash_suffix(name: &Vec<char>) -> (r: bool)
    ensures
        r == has_hash_suffix_spec(name@),
{
    let len = name.len();
    if len < 17 || name[len - 17] != '-' {
        return false;
    }
    let mut i: usize = len - 16;
    while i < len
        invariant
            len == name.len(),
            len >= 17,
            len - 16 <= i <= len,
            forall|j: int| len - 16 <= j < i ==> is_lower_hex_char(#[trigger] name@[j]),
        decreases len - i,
    {
        if !is_lower_hex_exec(name[i]) {
            return false;
        }
        i = i + 1;
    }
    true
}

/// Whether `name` is a Windows device name.
fn is_windows_device_name(name: &Vec<char>) -> (r: bool)
    ensures
        r == is_windows_device_name_spec(name@),
{
    let len = name.len();
    if len == 3 {
        let (a, b, c) = (name[0], name[1], name[2]);
        assert(name@ =~= seq![a, b, c]);
        (a == 'c' && b == 'o' && c == 'n') || (a == 'p' && b == 'r' && c == 'n') || (a == 'a'
            && b == 'u' && c == 'x') || (a == 'n' && b == 'u' && c == 'l')
    } else if len == 4 {
        let (a, b, c, d) = (name[0], name[1], name[2], name[3]);
        assert(name@.take(3) =~= seq![a, b, c]);
        ((a == 'c' && b == 'o' && c == 'm') || (a == 'l' && b == 'p' && c == 't')) && '0' <= d
            && d <= '9'
    } else {
        false
    }
}

fn fnv1a_exec(bytes: &[u8]) -> (h: u64)
    ensures
        h == fnv1a(bytes@),
{
    let mut h: u64 = 0xcbf2_9ce4_8422_2325;
    let mut i: usize = 0;
    while i < bytes.len()
        invariant
            i <= bytes.len(),
            h == fnv1a(bytes@.take(i as int)),
        decreases bytes.len() - i,
    {
        proof {
            assert(bytes@.take(i + 1).drop_last() =~= bytes@.take(i as int));
        }
        h = (h ^ (bytes[i] as u64)).wrapping_mul(0x0000_0100_0000_01b3);
        i = i + 1;
    }
    assert(bytes@.take(bytes.len() as int) =~= bytes@);
    h
}

fn hex_char_exec(d: u64) -> (c: char)
    requires
        d < 16,
    ensures
        c == hex_char(d as nat),
{
    let b: u8 = d as u8;
    if b < 10 {
        (b + 48) as char
    } else {
        (b + 87) as char
    }
}

/// The `j`-th hexadecimal digit of `value`, counting from the least
/// significant one.
pub open spec fn hex_digit_at(value: nat, j: nat) -> char
    decreases j,
{
    if j == 0 {
        hex_char(value % 16)
    } else {
        hex_digit_at(value / 16, (j - 1) as nat)
    }
}

/// The 16 lowercase hex digits of `value`.
fn hex16(value: u64) -> (r: Vec<char>)
    ensures
        r@ == hex_digits(value as nat, 16),
        r@.len() == 16,
{
    let mut digits: Vec<char> = Vec::new();
    let mut rest: u64 = value;
    let mut k: usize = 0;
    // digits holds the last k digits, least significant first.
    while k < 16
        invariant
            k <= 16,
            digits@.len() == k,
            forall|j: int| 0 <= j < k ==> #[trigger] digits@[j] == hex_digit_at(value as nat, j as nat),
            forall|m: nat| #[trigger] hex_digit_at(rest as nat, m) == hex_digit_at(value as nat, (m + k) as nat),
        decreases 16 - k,
    {
        let d = rest % 16;
        assert(hex_digit_at(rest as nat, 0) == hex_digit_at(value as nat, k as nat));
        digits.push(hex_char_exec(d));
        proof {
            assert forall|m: nat| #[trigger] hex_digit_at((rest / 16) as nat, m) == hex_digit_at(value as nat, (m + k + 1) as nat) by {
                assert(hex_digit_at(rest as nat, m + 1) == hex_digit_at(value as nat, (m + 1 + k) as nat));
            }
        }
        rest = rest / 16;
        k = k + 1;
    }
    let mut r: Vec<char> = Vec::new();
    let mut i: usize = 0;
    while i < 16
        invariant
            i <= 16,
            digits@.len() == 16,
            forall|j: int| 0 <= j < 16 ==> #[trigger] digits@[j] == hex_digit_at(value as nat, j as nat),
            r@.len() == i,
            forall|j: int| 0 <= j < i ==> r@[j] == digits@[15 - j],
        decreases 16 - i,
    {
        r.push(digits[15 - i]);
        i = i + 1;
    }
    proof {
        lemma_hex_digits_index(value as nat, 16);
        assert(r@ =~= hex_digits(value as nat, 16));
    }
    r
}

proof fn lemma_hex_digits_index(value: nat, n: nat)
    ensures
        hex_digits(value, n).len() == n,
        forall|j: int|
            0 <= j < n ==> #[trigger] hex_digits(value, n)[j] == hex_digit_at(value, (n - 1 - j) as nat),
    decreases n,
{
    if n > 0 {
        lemma_hex_digits_index(value / 16, (n - 1) as nat);
        assert forall|j: int| 0 <= j < n implies #[trigger] hex_digits(value, n)[j] == hex_digit_at(
            value,
            (n - 1 - j) as nat,
        ) by {
            if j < n - 1 {
                assert(hex_digits(value, n)[j] == hex_digits(value / 16, (n - 1) as nat)[j]);
            }
        }
    }
}

/// Filesystem-safe, collision-resistant directory name for a scope key.
///
/// Keys made only of lowercase ASCII letters, digits, `-` and `_` (at most 64
/// chars) are used verbatim; every other key gets a sanitized prefix plus a
/// `-<16 hex>` hash suffix. Windows device names are hashed too.
pub fn memory_scope_dir_name(scope_key: &str) -> (r: String)
    ensures
        r@ == dir_name_spec(scope_key@),
{
    let key = chars_of(scope_key);
    let sanitized = sanitized_exec(&key);
    if chars_eq(&sanitized, &key) && !has_hash_suffix(&sanitized) && !is_windows_device_name(
        &sanitized,
    ) {
        return string_of(&sanitized);
    }
    let hash = fnv1a_exec(scope_key.as_bytes());
    let digits = hex16(hash);
    let mut r = string_of(&sanitized);
    push_char(&mut r, '-');
    push_chars(&mut r, &digits);
    r
}

proof fn lemma_hex_digits_are_hex(value: nat, n: nat)
    ensures
        hex_digits(value, n).len() == n,
        forall|i: int| 0 <= i < n ==> is_lower_hex_char(#[trigger] hex_digits(value, n)[i]),
    decreases n,
{
    if n > 0 {
        lemma_hex_digits_are_hex(value / 16, (n - 1) as nat);
        let d = value % 16;
        assert(is_lower_hex_char(hex_char(d)));
        assert forall|i: int| 0 <= i < n implies is_lower_hex_char(
            #[trigger] hex_digits(value, n)[i],
        ) by {
            if i < n - 1 {
                assert(hex_digits(value, n)[i] == hex_digits(value / 16, (n - 1) as nat)[i]);
            }
        }
    }
}

/// A hashed directory name: `sanitized-<16 hex digits>`.
proof fn lemma_hashed_name_shape(key: Seq<char>)
    ensures
        ({
            let h = sanitized_spec(key).push('-') + hex_digits(
                fnv1a(vstd::utf8::encode_utf8(key)) as nat,
                16,
            );
            &&& h.len() == sanitized_spec(key).len() + 17
            &&& has_hash_suffix_spec(h)
            &&& forall|i: int| 0 <= i < h.len() ==> is_safe_dir_char(#[trigger] h[i])
        }),
{
    let s = sanitized_spec(key);
    let x = hex_digits(fnv1a(vstd::utf8::encode_utf8(key)) as nat, 16);
    lemma_hex_digits_are_hex(fnv1a(vstd::utf8::encode_utf8(key)) as nat, 16);
    let h = s.push('-') + x;
    assert(h[h.len() - 17] == '-');
    assert forall|i: int| h.len() - 16 <= i < h.len() implies is_lower_hex_char(#[trigger] h[i]) by {
        assert(h[i] == x[i - s.len() - 1]);
    }
    assert forall|i: int| 0 <= i < h.len() implies is_safe_dir_char(#[trigger] h[i]) by {
        if i < s.len() {
            assert(h[i] == sanitize_char(key[i]));
        } else if i > s.len() {
            assert(h[i] == x[i - s.len() - 1]);
            assert(is_lower_hex_char(x[i - s.len() - 1]));
        }
    }
}

/// Every directory name is made of lowercase ASCII letters, digits, `-` and
/// `_` only: it holds no path separator, no `.`, and no upper-case letter, so
/// it is safe on every filesystem and unchanged by case folding.
pub proof fn lemma_dir_name_is_safe(key: Seq<char>)
    ensures
        forall|i: int|
            0 <= i < dir_name_spec(key).len() ==> is_safe_dir_char(#[trigger] dir_name_spec(key)[i]),
{
    lemma_hashed_name_shape(key);
    let s = sanitized_spec(key);
    assert forall|i: int| 0 <= i < s.len() implies is_safe_dir_char(#[trigger] s[i]) by {}
}

/// A directory name is never a Windows device name.
pub proof fn lemma_dir_name_is_no_device(key: Seq<char>)
    ensures
        !is_windows_device_name_spec(dir_name_spec(key)),
{
    lemma_hashed_name_shape(key);
}

/// Two distinct keys share a directory only if both were hashed, with the
/// same sanitized prefix and the same 16 hex digits of their FNV-1a hashes:
/// a key used verbatim never collides with another key.
pub proof fn lemma_dir_names_distinct(a: Seq<char>, b: Seq<char>)
    requires
        a != b,
        dir_name_spec(a) == dir_name_spec(b),
    ensures
        dir_name_spec(a) != sanitized_spec(a),
        dir_name_spec(b) != sanitized_spec(b),
        sanitized_spec(a) == sanitized_spec(b),
        hex_digits(fnv1a(vstd::utf8::encode_utf8(a)) as nat, 16) == hex_digits(
            fnv1a(vstd::utf8::encode_utf8(b)) as nat,
            16,
        ),
{
    lemma_hashed_name_shape(a);
    lemma_hashed_name_shape(b);
    let sa = sanitized_spec(a);
    let sb = sanitized_spec(b);
    let xa = hex_digits(fnv1a(vstd::utf8::encode_utf8(a)) as nat, 16);
    let xb = hex_digits(fnv1a(vstd::utf8::encode_utf8(b)) as nat, 16);
    let ha = sa.push('-') + xa;
    let hb = sb.push('-') + xb;
    let verbatim_a = sa == a && !has_hash_suffix_spec(sa) && !is_windows_device_name_spec(sa);
    let verbatim_b = sb == b && !has_hash_suffix_spec(sb) && !is_windows_device_name_spec(sb);
    if verbatim_a {
        if verbatim_b {
            assert(false);
        } else {
            assert(dir_name_spec(b) == hb);
            assert(false);
        }
    } else if verbatim_b {
        assert(dir_name_spec(a) == ha);
        assert(false);
    } else {
        assert(ha == hb);
        assert(ha.len() == hb.len());
        assert(sa.len() == sb.len());
        assert(sa =~= ha.take(sa.len() as int));
        assert(sb =~= hb.take(sb.len() as int));
        assert(xa =~= ha.skip(sa.len() as int + 1));
        assert(xb =~= hb.skip(sb.len() as int + 1));
        assert(ha.len() != sa.len());
    }
}

/// The hashed directory name of a key: the sanitized key, `-`, and the 16
/// hex digits of the key's FNV-1a hash.
pub open spec fn hashed_dir_name(key: Seq<char>) -> Seq<char> {
    sanitized_spec(key).push('-') + hex_digits(fnv1a(vstd::utf8::encode_utf8(key)) as nat, 16)
}

/// Whether a key is used verbatim: at most 64 characters, all of them in
/// `[a-z0-9_-]`, no hash suffix, no device name.
pub open spec fn kept_verbatim(key: Seq<char>) -> bool {
    &&& key.len() <= 64
    &&& forall|i: int| 0 <= i < key.len() ==> is_safe_dir_char(#[trigger] key[i])
    &&& !has_hash_suffix_spec(key)
    &&& !is_windows_device_name_spec(key)
}

/// A key is its own directory name exactly when it is kept verbatim;
/// otherwise the name is the hashed one. (A key over 64 characters that is
/// its own hashed name is left out: there the name is the key.)
pub proof fn lemma_dir_name_verbatim(key: Seq<char>)
    requires
        key.len() > 64 ==> hashed_dir_name(key) != key,
    ensures
        dir_name_spec(key) == key <==> kept_verbatim(key),
        dir_name_spec(key) != key ==> dir_name_spec(key) == hashed_dir_name(key),
{
    let s = sanitized_spec(key);
    lemma_hashed_name_shape(key);
    if kept_verbatim(key) {
        assert(s =~= key);
    } else {
        if s == key {
            assert forall|i: int| 0 <= i < key.len() implies is_safe_dir_char(#[trigger] key[i]) by {
                assert(s[i] == sanitize_char(key[i]));
                if 'A' <= key[i] && key[i] <= 'Z' {
                    assert(sanitize_char(key[i]) as u32 == key[i] as u32 + 32);
                }
            }
        }
        assert(dir_name_spec(key) == hashed_dir_name(key));
        if key.len() <= 64 {
            assert(hashed_dir_name(key).len() == key.len() + 17);
        }
    }
}

/// No scope's partition is the global one, so scoped memories never land in
/// the global store by their partition name.
pub proof fn lemma_scope_partition_is_not_global(scope_key: Seq<char>)
    ensures
        scope_partition_spec(scope_key) != global_partition_spec(),
{
    assert(scope_partition_spec(scope_key)[0] == 's');
    assert(global_partition_spec()[0] == 'g');
}

} // verus!
