//! Verified text utilities: saturating counters, decimal rendering of
//! integers, the human-readable byte formatter, lexicographic ordering of
//! strings, substring search, and the path-prefix test that decides whether
//! one path lies in the subtree rooted at another.

use vstd::prelude::*;
use vstd::string::*;

verus! {

/// `a + b`, clamped at `u64::MAX`.
pub open spec fn spec_sat_add(a: u64, b: u64) -> u64 {
    if a + b > u64::MAX { u64::MAX } else { (a + b) as u64 }
}

pub fn sat_add(a: u64, b: u64) -> (r: u64)
    ensures
        r == spec_sat_add(a, b),
{
    if a > u64::MAX - b {
        u64::MAX
    } else {
        a + b
    }
}

/// Appends one character. Relies on `String::push`: the character is added at
/// the end and nothing else changes.
#[verifier::external_body]
pub fn push_char(s: &mut String, c: char)
    ensures
        final(s)@ == old(s)@.push(c),
{
    s.push(c);
}

/// What `str::to_lowercase` returns; a function of the characters alone.
pub uninterp spec fn lower_of(s: Seq<char>) -> Seq<char>;

/// Relies on `str::to_lowercase`: the result depends on the characters alone,
/// and an empty string stays empty.
#[verifier::external_body]
pub fn lowercase(s: &str) -> (r: String)
    ensures
        r@ == lower_of(s@),
        s@.len() == 0 ==> r@.len() == 0,
{
    s.to_lowercase()
}

pub open spec fn digit_char(d: nat) -> char {
    if d == 0 { '0' }
    else if d == 1 { '1' }
    else if d == 2 { '2' }
    else if d == 3 { '3' }
    else if d == 4 { '4' }
    else if d == 5 { '5' }
    else if d == 6 { '6' }
    else if d == 7 { '7' }
    else if d == 8 { '8' }
    else { '9' }
}

/// Decimal digits of `n`, most significant first.
pub open spec fn spec_digits(n: nat) -> Seq<char>
    decreases n,
{
    if n < 10 {
        seq![digit_char(n)]
    } else {
        spec_digits(n / 10).push(digit_char(n % 10))
    }
}

fn digit_to_char(d: u64) -> (c: char)
    requires
        d < 10,
    ensures
        c == digit_char(d as nat),
{
    if d == 0 { '0' }
    else if d == 1 { '1' }
    else if d == 2 { '2' }
    else if d == 3 { '3' }
    else if d == 4 { '4' }
    else if d == 5 { '5' }
    else if d == 6 { '6' }
    else if d == 7 { '7' }
    else if d == 8 { '8' }
    else { '9' }
}

/// Renders `n` in decimal.
pub fn u64_to_string(n: u64) -> (r: String)
    ensures
        r@ == spec_digits(n as nat),
    decreases n,
{
    let mut r: String = if n >= 10 {
        u64_to_string(n / 10)
    } else {
        String::new()
    };
    push_char(&mut r, digit_to_char(n % 10));
    proof {
        if n < 10 {
            assert(r@ =~= seq![digit_char(n as nat)]);
        }
    }
    r
}

pub open spec fn spec_pow1024(k: int) -> int {
    if k <= 0 { 1 }
    else if k == 1 { 1024 }
    else if k == 2 { 1048576 }
    else if k == 3 { 1073741824 }
    else { 1099511627776 }
}

/// Index of the largest unit not exceeding `bytes`: 0 for bytes, 1 for KB and
/// so on up to 4 for TB.
pub open spec fn spec_unit_index(bytes: u64) -> int {
    if bytes >= 1099511627776 { 4 }
    else if bytes >= 1073741824 { 3 }
    else if bytes >= 1048576 { 2 }
    else if bytes >= 1024 { 1 }
    else { 0 }
}

/// `bytes / 1024^k` in tenths, rounded to nearest with ties to even.
pub open spec fn spec_rounded_tenths(bytes: u64, p: int) -> int {
    let t = bytes * 10;
    let q = t / p;
    let r = t % p;
    if 2 * r > p || (2 * r == p && q % 2 == 1) { q + 1 } else { q }
}

pub open spec fn spec_unit_chars(k: int) -> Seq<char> {
    if k == 1 { seq!['K', 'B'] }
    else if k == 2 { seq!['M', 'B'] }
    else if k == 3 { seq!['G', 'B'] }
    else { seq!['T', 'B'] }
}

/// The text [`format_bytes`] produces: `"0 B"` for zero, a plain byte count
/// below 1024, and otherwise one decimal place in the largest unit that fits.
pub open spec fn spec_format_bytes(bytes: u64) -> Seq<char> {
    if bytes == 0 {
        seq!['0', ' ', 'B']
    } else {
        let k = spec_unit_index(bytes);
        if k == 0 {
            spec_digits(bytes as nat) + seq![' ', 'B']
        } else {
            let tenths = spec_rounded_tenths(bytes, spec_pow1024(k));
            spec_digits((tenths / 10) as nat) + seq!['.', digit_char((tenths % 10) as nat), ' ']
                + spec_unit_chars(k)
        }
    }
}

/// Human-readable byte count, e.g. `2048` becomes `"2.0 KB"`.
pub fn format_bytes(bytes: u64) -> (r: String)
    ensures
        r@ == spec_format_bytes(bytes),
{
    if bytes == 0 {
        let mut s = String::new();
        push_char(&mut s, '0');
        push_char(&mut s, ' ');
        push_char(&mut s, 'B');
        proof { assert(s@ =~= spec_format_bytes(bytes)); }
        return s;
    }

    if bytes < 1024 {
        let mut s = u64_to_string(bytes);
        push_char(&mut s, ' ');
        push_char(&mut s, 'B');
        proof { assert(s@ =~= spec_format_bytes(bytes)); }
        return s;
    }

    let p: u128 = if bytes >= 1099511627776 {
        1099511627776
    } else if bytes >= 1073741824 {
        1073741824
    } else if bytes >= 1048576 {
        1048576
    } else {
        1024
    };

    let t: u128 = (bytes as u128) * 10;
    let q: u128 = t / p;
    let rem: u128 = t % p;
    assert(q * p + rem == t && rem < p) by {
        vstd::arithmetic::div_mod::lemma_fundamental_div_mod(t as int, p as int);
    };
    assert(q <= t / 1024) by {
        vstd::arithmetic::div_mod::lemma_div_is_ordered_by_denominator(t as int, 1024, p as int);
    };
    let round_up: bool = 2 * rem > p || (2 * rem == p && q % 2 == 1);
    let tenths: u64 = (q as u64) + if round_up { 1 } else { 0 };

    let mut s = u64_to_string(tenths / 10);
    push_char(&mut s, '.');
    push_char(&mut s, digit_to_char(tenths % 10));
    push_char(&mut s, ' ');
    if bytes >= 1099511627776 {
        push_char(&mut s, 'T');
    } else if bytes >= 1073741824 {
        push_char(&mut s, 'G');
    } else if bytes >= 1048576 {
        push_char(&mut s, 'M');
    } else {
        push_char(&mut s, 'K');
    }
    push_char(&mut s, 'B');
    proof { assert(s@ =~= spec_format_bytes(bytes)); }
    s
}

/// Lexicographic order on character sequences, by code point.
pub open spec fn chars_le(a: Seq<char>, b: Seq<char>) -> bool
    decreases a.len(),
{
    if a.len() == 0 {
        true
    } else if b.len() == 0 {
        false
    } else if (a[0] as u32) == (b[0] as u32) {
        chars_le(a.drop_first(), b.drop_first())
    } else {
        (a[0] as u32) < (b[0] as u32)
    }
}

/// Two characters with the same code point are the same character.
proof fn lemma_char_injective(a: char, b: char)
    requires
        a as u32 == b as u32,
    ensures
        a == b,
{
}

/// `chars_le` both ways means the sequences are the same.
pub proof fn lemma_chars_le_antisymmetric(a: Seq<char>, b: Seq<char>)
    requires
        chars_le(a, b),
        chars_le(b, a),
    ensures
        a == b,
    decreases a.len(),
{
    if a.len() == 0 {
        assert(b.len() == 0);
        assert(a =~= b);
    } else {
        assert(b.len() != 0);
        if (a[0] as u32) == (b[0] as u32) {
            lemma_char_injective(a[0], b[0]);
            lemma_chars_le_antisymmetric(a.drop_first(), b.drop_first());
            assert forall|i: int| 0 <= i < a.len() implies a[i] == b[i] by {
                if i > 0 {
                    assert(a.drop_first()[i - 1] == b.drop_first()[i - 1]);
                }
            }
            assert(a =~= b);
        }
    }
}

/// `chars_le` relates every pair of sequences one way or the other.
pub proof fn lemma_chars_le_total(a: Seq<char>, b: Seq<char>)
    ensures
        chars_le(a, b) || chars_le(b, a),
    decreases a.len(),
{
    if a.len() != 0 && b.len() != 0 && (a[0] as u32) == (b[0] as u32) {
        lemma_chars_le_total(a.drop_first(), b.drop_first());
    }
}

/// `chars_le` is transitive.
pub proof fn lemma_chars_le_transitive(a: Seq<char>, b: Seq<char>, c: Seq<char>)
    requires
        chars_le(a, b),
        chars_le(b, c),
    ensures
        chars_le(a, c),
    decreases a.len(),
{
    if a.len() != 0 && b.len() != 0 && c.len() != 0 && (a[0] as u32) == (b[0] as u32) && (b[0]
        as u32) == (c[0] as u32) {
        lemma_chars_le_transitive(a.drop_first(), b.drop_first(), c.drop_first());
    }
}

fn str_le_from(a: &str, b: &str, i: usize) -> (r: bool)
    requires
        i <= a@.len(),
        i <= b@.len(),
    ensures
        r == chars_le(a@.skip(i as int), b@.skip(i as int)),
    decreases a@.len() - i,
{
    let alen = a.unicode_len();
    let blen = b.unicode_len();
    if i >= alen {
        true
    } else if i >= blen {
        false
    } else {
        let ca = a.get_char(i);
        let cb = b.get_char(i);
        if (ca as u32) == (cb as u32) {
            let r = str_le_from(a, b, i + 1);
            proof {
                assert(a@.skip(i as int).drop_first() =~= a@.skip(i + 1));
                assert(b@.skip(i as int).drop_first() =~= b@.skip(i + 1));
            }
            r
        } else {
            (ca as u32) < (cb as u32)
        }
    }
}

/// Lexicographic comparison of two strings by code point.
pub fn str_le(a: &String, b: &String) -> (r: bool)
    ensures
        r == chars_le(a@, b@),
{
    let r = str_le_from(a.as_str(), b.as_str(), 0);
    proof {
        assert(a@.skip(0) =~= a@);
        assert(b@.skip(0) =~= b@);
    }
    r
}

/// `needle` occurs contiguously somewhere in `hay`.
pub open spec fn spec_contains(hay: Seq<char>, needle: Seq<char>) -> bool {
    exists|i: int|
        0 <= i && i + needle.len() <= hay.len() && #[trigger] hay.subrange(i, i + needle.len())
            == needle
}

/// Substring search.
#[verifier::loop_isolation(false)]
pub fn contains_str(hay: &str, needle: &str) -> (r: bool)
    ensures
        r == spec_contains(hay@, needle@),
{
    let hlen = hay.unicode_len();
    let nlen = needle.unicode_len();
    if nlen > hlen {
        return false;
    }
    if nlen == 0 {
        proof {
            assert(hay@.subrange(0, 0 + needle@.len() as int) =~= needle@);
        }
        return true;
    }
    let mut i: usize = 0;
    while i <= hlen - nlen
        invariant
            i <= hlen - nlen + 1,
            forall|i0: int|
                0 <= i0 < i ==> #[trigger] hay@.subrange(i0, i0 + needle@.len()) != needle@,
        decreases hlen - nlen - i + 1,
    {
        let mut j: usize = 0;
        let mut mismatch = false;
        while j < nlen && !mismatch
            invariant
                i + nlen <= hlen,
                j <= nlen,
                !mismatch ==> forall|j0: int| 0 <= j0 < j ==> hay@[i + j0] == needle@[j0],
                mismatch ==> hay@.subrange(i as int, i + needle@.len()) != needle@,
            decreases nlen - j, (if mismatch { 0int } else { 1int }),
        {
            let hc = hay.get_char(i + j);
            let nc = needle.get_char(j);
            if hc != nc {
                proof {
                    let sub = hay@.subrange(i as int, i + needle@.len());
                    assert(sub[j as int] == hay@[i + j]);
                }
                mismatch = true;
            } else {
                j += 1;
            }
        }
        if !mismatch {
            proof {
                let sub = hay@.subrange(i as int, i + needle@.len());
                assert forall|j0: int| 0 <= j0 < needle@.len() implies sub[j0] == needle@[j0] by {
                    assert(sub[j0] == hay@[i + j0]);
                }
                assert(sub =~= needle@);
            }
            return true;
        }
        i += 1;
    }
    proof {
        assert forall|i0: int|
            0 <= i0 && i0 + needle@.len() <= hay@.len() implies #[trigger] hay@.subrange(
            i0,
            i0 + needle@.len(),
        ) != needle@ by {
            assert(i0 < i);
        }
    }
    false
}

/// `path` names the same node as `root` or one nested beneath it. Nesting is
/// decided on a component boundary: the next character of `path` after the
/// `root` prefix must be a separator, unless `root` itself ends in one.
pub open spec fn spec_in_subtree(path: Seq<char>, root: Seq<char>) -> bool {
    path == root || (root.len() < path.len() && path.subrange(0, root.len() as int) == root && (
    path[root.len() as int] == '/' || (root.len() > 0 && root[root.len() - 1] == '/')))
}

#[verifier::loop_isolation(false)]
pub fn in_subtree(path: &String, root: &String) -> (r: bool)
    ensures
        r == spec_in_subtree(path@, root@),
{
    if path.eq(root) {
        return true;
    }
    let pstr = path.as_str();
    let rstr = root.as_str();
    let plen = pstr.unicode_len();
    let rlen = rstr.unicode_len();
    if rlen >= plen {
        proof {
            if rlen == plen && path@.subrange(0, rlen as int) == root@ {
                assert(path@ =~= root@);
            }
        }
        return false;
    }
    let mut i: usize = 0;
    while i < rlen
        invariant
            rlen < plen,
            plen == path@.len(),
            rlen == root@.len(),
            i <= rlen,
            forall|i0: int| 0 <= i0 < i ==> path@[i0] == root@[i0],
        decreases rlen - i,
    {
        if pstr.get_char(i) != rstr.get_char(i) {
            proof {
                if path@.subrange(0, root@.len() as int) == root@ {
                    assert(path@.subrange(0, root@.len() as int)[i as int] == path@[i as int]);
                }
            }
            return false;
        }
        i += 1;
    }
    proof {
        assert(path@.subrange(0, root@.len() as int) =~= root@);
    }
    if rlen == 0 {
        pstr.get_char(0) == '/'
    } else if rstr.get_char(rlen - 1) == '/' {
        true
    } else {
        pstr.get_char(rlen) == '/'
    }
}

/// `s` without its last character; empty stays empty. Stands in for
/// `String::pop` when only the shortened text is needed.
pub fn drop_last_char(s: &String) -> (r: String)
    ensures
        s@.len() == 0 ==> r@ == s@,
        s@.len() > 0 ==> r@ == s@.drop_last(),
{
    let st = s.as_str();
    let n = st.unicode_len();
    if n == 0 {
        let r = String::new();
        proof {
            assert(r@ =~= s@);
        }
        r
    } else {
        let sub = st.substring_char(0, n - 1);
        let r = sub.to_owned();
        proof {
            assert(r@ =~= s@.drop_last());
        }
        r
    }
}

/// The paths that survive pruning of the subtree rooted at `root`.
pub open spec fn outside_subtree(root: Seq<char>) -> spec_fn(Seq<char>) -> bool {
    |m: Seq<char>| !spec_in_subtree(m, root)
}

/// The characters after the last `/` of `p`; all of `p` when it has none,
/// empty when it ends in one.
pub open spec fn spec_file_name(p: Seq<char>) -> Seq<char>
    decreases p.len(),
{
    if p.len() == 0 {
        p
    } else if p.last() == '/' {
        Seq::<char>::empty()
    } else {
        spec_file_name(p.drop_last()).push(p.last())
    }
}

/// The final path component, used for display and name matching.
#[verifier::loop_isolation(false)]
pub fn file_name_of(path: &String) -> (r: String)
    ensures
        r@ == spec_file_name(path@),
{
    let pstr = path.as_str();
    let plen = pstr.unicode_len();
    let mut r = String::new();
    let mut i: usize = 0;
    while i < plen
        invariant
            plen == path@.len(),
            i <= plen,
            r@ == spec_file_name(path@.subrange(0, i as int)),
        decreases plen - i,
    {
        let c = pstr.get_char(i);
        proof {
            let pre = path@.subrange(0, i + 1);
            assert(pre.last() == path@[i as int]);
            assert(pre.drop_last() =~= path@.subrange(0, i as int));
        }
        if c == '/' {
            r = String::new();
        } else {
            push_char(&mut r, c);
        }
        i += 1;
    }
    proof {
        assert(path@.subrange(0, plen as int) =~= path@);
    }
    r
}


/// Index of the last separator in `p`, if any.
pub open spec fn spec_last_slash(p: Seq<char>) -> Option<int>
    decreases p.len(),
{
    if p.len() == 0 {
        None
    } else if p.last() == '/' {
        Some(p.len() - 1)
    } else {
        spec_last_slash(p.drop_last())
    }
}

/// `spec_last_slash` names the rightmost separator.
pub proof fn lemma_last_slash(p: Seq<char>)
    ensures
        match spec_last_slash(p) {
            Some(k) => 0 <= k < p.len() && p[k] == '/' && (forall|j: int|
                k < j < p.len() ==> p[j] != '/'),
            None => forall|j: int| 0 <= j < p.len() ==> p[j] != '/',
        },
    decreases p.len(),
{
    if p.len() > 0 && p.last() != '/' {
        lemma_last_slash(p.drop_last());
        assert forall|j: int| 0 <= j < p.len() - 1 implies p.drop_last()[j] == p[j] by {}
    }
}

/// The parent of a path: everything before the last separator. The lone
/// root separator has no parent; a path directly under it keeps the
/// separator as its parent.
pub open spec fn spec_parent(p: Seq<char>) -> Option<Seq<char>> {
    match spec_last_slash(p) {
        None => None,
        Some(k) => if k == 0 {
            if p.len() == 1 {
                None
            } else {
                Some(seq!['/'])
            }
        } else {
            Some(p.subrange(0, k))
        },
    }
}

/// The parent path of `path`, or `None` when it has no separator or is the
/// root separator itself.
#[verifier::loop_isolation(false)]
pub fn parent_of(path: &String) -> (r: Option<String>)
    ensures
        match r {
            Some(pp) => spec_parent(path@) == Some(pp@),
            None => spec_parent(path@) is None,
        },
{
    let pstr = path.as_str();
    let plen = pstr.unicode_len();
    let mut last: Option<usize> = None;
    let mut i: usize = 0;
    while i < plen
        invariant
            i <= plen,
            match last {
                Some(k) => k < i && path@[k as int] == '/' && (forall|j: int|
                    k < j < i ==> path@[j] != '/'),
                None => forall|j: int| 0 <= j < i ==> path@[j] != '/',
            },
        decreases plen - i,
    {
        if pstr.get_char(i) == '/' {
            last = Some(i);
        }
        i += 1;
    }
    proof {
        lemma_last_slash(path@);
    }
    match last {
        None => None,
        Some(k) => {
            proof {
                assert(spec_last_slash(path@) == Some(k as int)) by {
                    match spec_last_slash(path@) {
                        Some(k2) => {
                            if k2 < k {
                                assert(path@[k as int] == '/');
                                assert(false);
                            } else if k2 > k {
                                assert(path@[k2] == '/');
                                assert(false);
                            }
                        },
                        None => {
                            assert(path@[k as int] == '/');
                            assert(false);
                        },
                    }
                }
            }
            if k == 0 {
                if plen == 1 {
                    None
                } else {
                    let mut s = String::new();
                    push_char(&mut s, '/');
                    proof {
                        assert(s@ =~= seq!['/']);
                    }
                    Some(s)
                }
            } else {
                let sub = pstr.substring_char(0, k);
                Some(sub.to_owned())
            }
        },
    }
}

} // verus!
