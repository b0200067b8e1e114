//! Character-level text helpers: substring search and case folding.

use vstd::prelude::*;
use vstd::string::StrSliceExecFns;

verus! {

/// True when `needle` occurs as a contiguous run of characters inside `hay`.
pub open spec fn seq_contains(hay: Seq<char>, needle: Seq<char>) -> bool {
    exists|i: int|
        0 <= i && i + needle.len() <= hay.len() && #[trigger] hay.subrange(i, i + needle.len())
            == needle
}

/// What `str::to_lowercase` returns; the result depends on the characters alone.
pub uninterp spec fn lower_of(s: Seq<char>) -> Seq<char>;

/// Relies on `str::to_lowercase`: the lowercase form of a string, a pure
/// function of its characters.
#[verifier::external_body]
pub fn lowercase(s: &str) -> (r: String)
    ensures
        r@ == lower_of(s@),
{
    s.to_lowercase()
}

/// Character-for-character string equality.
pub fn str_eq(a: &str, b: &str) -> (r: bool)
    ensures
        r == (a@ == b@),
{
    let n = a.unicode_len();
    if n != b.unicode_len() {
        return false;
    }
    let mut i: usize = 0;
    while i < n
        invariant
            i <= n,
            n == a@.len(),
            n == b@.len(),
            forall|k: int| 0 <= k < i ==> a@[k] == b@[k],
        decreases n - i,
    {
        if a.get_char(i) != b.get_char(i) {
            return false;
        }
        i += 1;
    }
    proof {
        assert(a@ =~= b@);
    }
    true
}

/// Case-sensitive substring test, character by character.
pub fn str_contains(hay: &str, needle: &str) -> (r: bool)
    ensures
        r == seq_contains(hay@, needle@),
{
    let n = hay.unicode_len();
    let m = needle.unicode_len();
    if m > n {
        assert(!seq_contains(hay@, needle@));
        return false;
    }
    if m == 0 {
        proof {
            assert(hay@.subrange(0, 0 + needle@.len() as int) =~= needle@);
        }
        return true;
    }
    let mut i: usize = 0;
    while i <= n - m
        invariant
            m <= n,
            n == hay@.len(),
            m == needle@.len(),
            1 <= m,
            i <= n - m + 1,
            forall|k: int| 0 <= k < i ==> #[trigger] hay@.subrange(k, k + m) != needle@,
        decreases n - m + 1 - i,
    {
        let mut j: usize = 0;
        let mut ok = true;
        while j < m && ok
            invariant
                j <= m,
                m <= n,
                i + m <= n,
                n == hay@.len(),
                m == needle@.len(),
                ok ==> forall|t: int| 0 <= t < j ==> hay@[i + t] == needle@[t],
                !ok ==> hay@.subrange(i as int, i + m) != needle@,
            decreases m - j + (if ok { 1int } else { 0int }),
        {
            if hay.get_char(i + j) != needle.get_char(j) {
                proof {
                    assert(hay@.subrange(i as int, i + m)[j as int] != needle@[j as int]);
                }
                ok = false;
            } else {
                j += 1;
            }
        }
        if ok {
            proof {
                assert(hay@.subrange(i as int, i + m) =~= needle@);
            }
            return true;
        }
        i += 1;
    }
    proof {
        assert forall|k: int| 0 <= k && k + m <= n implies #[trigger] hay@.subrange(k, k + m)
            != needle@ by {
            assert(k < i);
        }
    }
    false
}

/// `s` with every non-overlapping occurrence of `token`, found left to
/// right, replaced by `rep`; an empty token leaves `s` unchanged.
pub open spec fn replace_token(s: Seq<char>, token: Seq<char>, rep: Seq<char>) -> Seq<char>
    decreases s.len(),
{
    if token.len() == 0 || s.len() < token.len() {
        s
    } else if s.subrange(0, token.len() as int) == token {
        rep + replace_token(s.skip(token.len() as int), token, rep)
    } else {
        seq![s[0]] + replace_token(s.drop_first(), token, rep)
    }
}

/// `s` with every occurrence of `token` replaced by `rep`.
pub fn replace_token_str(s: &str, token: &str, rep: &str) -> (r: String)
    ensures
        r@ == replace_token(s@, token@, rep@),
{
    let n = s.unicode_len();
    let tl = token.unicode_len();
    if tl == 0 {
        return s.to_owned();
    }
    let mut out = String::new();
    let mut i: usize = 0;
    proof {
        assert(s@.skip(0) =~= s@);
        assert(out@ + s@ =~= s@);
    }
    while i < n
        invariant
            i <= n,
            n == s@.len(),
            tl == token@.len(),
            1 <= tl,
            out@ + replace_token(s@.skip(i as int), token@, rep@) == replace_token(
                s@,
                token@,
                rep@,
            ),
        decreases n - i,
    {
        let ghost rest = s@.skip(i as int);
        if tl <= n - i && crate::text::str_eq(s.substring_char(i, i + tl), token) {
            proof {
                assert(rest.subrange(0, tl as int) =~= s@.subrange(i as int, i + tl));
                assert(rest.skip(tl as int) =~= s@.skip(i + tl));
            }
            out.append(rep);
            i += tl;
        } else {
            proof {
                if tl <= rest.len() {
                    assert(rest.subrange(0, tl as int) =~= s@.subrange(i as int, i + tl));
                    assert(rest.drop_first() =~= s@.skip(i + 1));
                    assert(seq![rest[0]] + s@.skip(i + 1) =~= rest);
                } else {
                    assert(replace_token(rest, token@, rep@) == rest);
                    assert(replace_token(s@.skip(i + 1), token@, rep@) == s@.skip(i + 1));
                    assert(seq![rest[0]] + s@.skip(i + 1) =~= rest);
                }
            }
            out.append(s.substring_char(i, i + 1));
            i += 1;
        }
        proof {
            assert(out@ + replace_token(s@.skip(i as int), token@, rep@) =~= replace_token(
                s@,
                token@,
                rep@,
            ));
        }
    }
    proof {
        assert(s@.skip(n as int) =~= Seq::<char>::empty());
        assert(out@ =~= replace_token(s@, token@, rep@));
    }
    out
}

/// The characters of the Unicode `White_Space` set, by code point.
pub open spec fn is_space_char(c: char) -> bool {
    let u = c as u32;
    u == 0x20 || (0x09 <= u && u <= 0x0D) || u == 0x85 || u == 0xA0 || u == 0x1680 || (0x2000 <= u
        && u <= 0x200A) || u == 0x2028 || u == 0x2029 || u == 0x202F || u == 0x205F || u == 0x3000
}

/// Whether `c` is a whitespace character.
fn is_space(c: char) -> (r: bool)
    ensures
        r == is_space_char(c),
{
    let u = c as u32;
    u == 0x20 || (0x09 <= u && u <= 0x0D) || u == 0x85 || u == 0xA0 || u == 0x1680 || (0x2000 <= u
        && u <= 0x200A) || u == 0x2028 || u == 0x2029 || u == 0x202F || u == 0x205F || u == 0x3000
}

/// `s` without its leading whitespace.
pub open spec fn trim_start_spec(s: Seq<char>) -> Seq<char>
    decreases s.len(),
{
    if s.len() == 0 {
        s
    } else if is_space_char(s[0]) {
        trim_start_spec(s.drop_first())
    } else {
        s
    }
}

/// `s` without its trailing whitespace.
pub open spec fn trim_end_spec(s: Seq<char>) -> Seq<char>
    decreases s.len(),
{
    if s.len() == 0 {
        s
    } else if is_space_char(s.last()) {
        trim_end_spec(s.drop_last())
    } else {
        s
    }
}

/// `s` without leading and trailing whitespace.
pub open spec fn trim_spec(s: Seq<char>) -> Seq<char> {
    trim_end_spec(trim_start_spec(s))
}

/// `s` without leading and trailing whitespace.
pub fn trim_str(s: &str) -> (r: String)
    ensures
        r@ == trim_spec(s@),
{
    let n = s.unicode_len();
    let mut start: usize = 0;
    proof {
        assert(s@.skip(0) =~= s@);
    }
    while start < n && is_space(s.get_char(start))
        invariant
            start <= n,
            n == s@.len(),
            trim_start_spec(s@) == trim_start_spec(s@.skip(start as int)),
        decreases n - start,
    {
        proof {
            assert(s@.skip(start as int).drop_first() =~= s@.skip(start + 1));
        }
        start += 1;
    }
    proof {
        assert(trim_start_spec(s@) == s@.skip(start as int));
        assert(s@.skip(start as int) =~= s@.subrange(start as int, n as int));
    }
    let mut end: usize = n;
    while end > start && is_space(s.get_char(end - 1))
        invariant
            start <= end <= n,
            n == s@.len(),
            trim_start_spec(s@) == s@.skip(start as int),
            trim_end_spec(s@.skip(start as int)) == trim_end_spec(
                s@.subrange(start as int, end as int),
            ),
        decreases end,
    {
        proof {
            assert(s@.subrange(start as int, end as int).last() == s@[end - 1]);
            assert(s@.subrange(start as int, end as int).drop_last() =~= s@.subrange(
                start as int,
                end - 1,
            ));
        }
        end -= 1;
    }
    proof {
        assert(trim_end_spec(s@.subrange(start as int, end as int)) == s@.subrange(
            start as int,
            end as int,
        ));
    }
    s.substring_char(start, end).to_owned()
}

/// The last `/`-separated non-empty segment of `s`, after dropping any
/// trailing slashes; nothing when no such segment exists.
pub open spec fn last_segment(s: Seq<char>) -> Option<Seq<char>> {
    let seg = after_last_slash(strip_trailing_slashes(s));
    if seg.len() == 0 {
        None
    } else {
        Some(seg)
    }
}

/// `s` without its trailing `/` characters.
pub open spec fn strip_trailing_slashes(s: Seq<char>) -> Seq<char>
    decreases s.len(),
{
    if s.len() > 0 && s.last() == '/' {
        strip_trailing_slashes(s.drop_last())
    } else {
        s
    }
}

/// The suffix of `s` that follows its last `/`; all of `s` when it has none.
pub open spec fn after_last_slash(s: Seq<char>) -> Seq<char>
    decreases s.len(),
{
    if s.len() == 0 {
        s
    } else if s.last() == '/' {
        Seq::empty()
    } else {
        after_last_slash(s.drop_last()).push(s.last())
    }
}

/// The last non-empty path segment of `s`, or nothing if `s` consists of
/// slashes alone or is empty.
pub fn last_segment_str(s: &str) -> (r: Option<String>)
    ensures
        match r {
            Some(seg) => last_segment(s@) == Some(seg@),
            None => last_segment(s@) is None,
        },
{
    let n = s.unicode_len();
    let mut end: usize = n;
    proof {
        assert(s@.take(n as int) =~= s@);
    }
    while end > 0 && s.get_char(end - 1) == '/'
        invariant
            end <= n,
            n == s@.len(),
            strip_trailing_slashes(s@) == strip_trailing_slashes(s@.take(end as int)),
        decreases end,
    {
        proof {
            assert(s@.take(end as int).last() == s@[end - 1]);
            assert(s@.take(end as int).drop_last() =~= s@.take(end - 1));
        }
        end -= 1;
    }
    proof {
        assert(strip_trailing_slashes(s@) == s@.take(end as int));
    }
    let mut k: usize = end;
    proof {
        assert(after_last_slash(s@.take(end as int)) + s@.subrange(end as int, end as int)
            =~= after_last_slash(s@.take(end as int)));
    }
    while k > 0 && s.get_char(k - 1) != '/'
        invariant
            k <= end <= n,
            n == s@.len(),
            after_last_slash(s@.take(end as int)) == after_last_slash(s@.take(k as int))
                + s@.subrange(k as int, end as int),
        decreases k,
    {
        proof {
            assert(s@.take(k as int).last() == s@[k - 1]);
            assert(s@.take(k as int).drop_last() =~= s@.take(k - 1));
            assert(after_last_slash(s@.take(k - 1)) + s@.subrange(k - 1, end as int)
                =~= (after_last_slash(s@.take(k - 1)).push(s@[k - 1])) + s@.subrange(
                k as int,
                end as int,
            ));
        }
        k -= 1;
    }
    proof {
        if k == 0 {
            assert(after_last_slash(s@.take(0)) =~= Seq::<char>::empty());
        } else {
            assert(s@.take(k as int).last() == '/');
            assert(after_last_slash(s@.take(k as int)) =~= Seq::<char>::empty());
        }
        assert(after_last_slash(s@.take(end as int)) =~= s@.subrange(k as int, end as int));
    }
    if k == end {
        proof {
            assert(after_last_slash(s@.take(end as int)).len() == 0);
        }
        None
    } else {
        Some(s.substring_char(k, end).to_owned())
    }
}

} // verus!
