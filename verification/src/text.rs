use vstd::prelude::*;

verus! {

/// The views of a sequence of strings.
pub open spec fn str_views(ss: Seq<String>) -> Seq<Seq<char>> {
    ss.map_values(|s: String| s@)
}

/// Splitting a sequence of characters on a delimiter. Splitting the
/// empty sequence yields one empty piece; a delimiter at either end
/// yields an empty piece on that side.
pub open spec fn split_on(s: Seq<char>, d: char) -> Seq<Seq<char>>
    decreases s.len(),
{
    if s.len() == 0 {
        seq![Seq::<char>::empty()]
    } else if s[0] == d {
        seq![Seq::<char>::empty()] + split_on(s.skip(1), d)
    } else {
        let rest = split_on(s.skip(1), d);
        seq![seq![s[0]] + rest[0]] + rest.skip(1)
    }
}

pub proof fn lemma_split_len(s: Seq<char>, d: char)
    ensures
        split_on(s, d).len() >= 1,
    decreases s.len(),
{
    if s.len() > 0 {
        lemma_split_len(s.skip(1), d);
    }
}

/// A sequence without the delimiter splits into that one piece.
pub proof fn lemma_split_no_delim(s: Seq<char>, d: char)
    requires
        forall|i: int| 0 <= i < s.len() ==> #[trigger] s[i] != d,
    ensures
        split_on(s, d) == seq![s],
    decreases s.len(),
{
    if s.len() == 0 {
        assert(split_on(s, d) == seq![Seq::<char>::empty()]);
        assert(s =~= Seq::<char>::empty());
        assert(seq![s] =~= seq![Seq::<char>::empty()]);
    } else {
        lemma_split_no_delim(s.skip(1), d);
        let rest = split_on(s.skip(1), d);
        assert(rest == seq![s.skip(1)]);
        assert(seq![s[0]] + s.skip(1) =~= s);
        assert(rest.skip(1) =~= Seq::<Seq<char>>::empty());
        assert(split_on(s, d) =~= seq![s]);
    }
}

/// Splitting takes apart one delimiter at a time: a piece without the
/// delimiter, the delimiter, and the rest.
pub proof fn lemma_split_append(a: Seq<char>, b: Seq<char>, d: char)
    requires
        forall|i: int| 0 <= i < a.len() ==> #[trigger] a[i] != d,
    ensures
        split_on(a + seq![d] + b, d) == seq![a] + split_on(b, d),
    decreases a.len(),
{
    let s = a + seq![d] + b;
    if a.len() == 0 {
        assert(s.len() > 0);
        assert(s[0] == d);
        assert(s.skip(1) =~= b);
        assert(split_on(s, d) == seq![Seq::<char>::empty()] + split_on(b, d));
        assert(a =~= Seq::<char>::empty());
        assert(seq![Seq::<char>::empty()] + split_on(b, d) =~= seq![a] + split_on(b, d));
    } else {
        assert(s.len() > 0);
        assert(s[0] == a[0]);
        assert(a[0] != d);
        assert(s.skip(1) =~= a.skip(1) + seq![d] + b);
        lemma_split_append(a.skip(1), b, d);
        let rest = split_on(s.skip(1), d);
        assert(rest == seq![a.skip(1)] + split_on(b, d));
        lemma_split_len(b, d);
        assert(rest[0] == a.skip(1));
        assert(seq![s[0]] + rest[0] =~= a);
        assert(rest.skip(1) =~= split_on(b, d));
        assert(split_on(s, d) =~= seq![a] + split_on(b, d));
    }
}

/// Splits a string on a delimiter character.
pub fn split_str(s: &str, d: char) -> (r: Vec<String>)
    ensures
        str_views(r@) == split_on(s@, d),
{
    let len = s.unicode_len();
    let mut pieces: Vec<String> = Vec::new();
    let mut start: usize = 0;
    let mut i: usize = 0;
    proof {
        assert(s@.skip(0) =~= s@);
        assert(str_views(pieces@) =~= Seq::<Seq<char>>::empty());
    }
    while i < len
        invariant
            0 <= start <= i <= len,
            len == s@.len(),
            forall|j: int| start <= j < i ==> #[trigger] s@[j] != d,
            split_on(s@, d) == str_views(pieces@) + split_on(s@.skip(start as int), d),
        decreases len - i,
    {
        let c = s.get_char(i);
        if c == d {
            proof {
                assert(s@.skip(start as int) =~= s@.subrange(start as int, i as int) + seq![d]
                    + s@.skip(i as int + 1));
                lemma_split_append(s@.subrange(start as int, i as int), s@.skip(i as int + 1), d);
            }
            let piece = s.substring_char(start, i);
            let owned = String::from_str(piece);
            proof {
                assert(str_views(pieces@.push(owned)) =~= str_views(pieces@) + seq![s@.subrange(
                    start as int,
                    i as int,
                )]);
            }
            pieces.push(owned);
            start = i + 1;
        }
        i = i + 1;
    }
    let last = s.substring_char(start, len);
    let owned = String::from_str(last);
    proof {
        lemma_split_no_delim(s@.skip(start as int), d);
        assert(s@.subrange(start as int, len as int) =~= s@.skip(start as int));
        assert(str_views(pieces@.push(owned)) =~= str_views(pieces@) + seq![s@.skip(start as int)]);
    }
    pieces.push(owned);
    proof {
        assert(str_views(pieces@) =~= split_on(s@, d));
    }
    pieces
}

/// The characters that `trim` removes: the documented White_Space
/// property code points.
pub open spec fn is_ws_char(c: char) -> bool {
    c == ' ' || c == '\t' || c == '\n' || c == '\r' || c == '\u{0b}' || c == '\u{0c}'
        || c == '\u{85}' || c == '\u{a0}' || c == '\u{1680}' || c == '\u{2000}' || c == '\u{2001}'
        || c == '\u{2002}' || c == '\u{2003}' || c == '\u{2004}' || c == '\u{2005}'
        || c == '\u{2006}' || c == '\u{2007}' || c == '\u{2008}' || c == '\u{2009}'
        || c == '\u{200a}' || c == '\u{2028}' || c == '\u{2029}' || c == '\u{202f}'
        || c == '\u{205f}' || c == '\u{3000}'
}

pub open spec fn trim_front(s: Seq<char>) -> Seq<char>
    decreases s.len(),
{
    if s.len() > 0 && is_ws_char(s[0]) {
        trim_front(s.skip(1))
    } else {
        s
    }
}

pub open spec fn trim_back(s: Seq<char>) -> Seq<char>
    decreases s.len(),
{
    if s.len() > 0 && is_ws_char(s.last()) {
        trim_back(s.drop_last())
    } else {
        s
    }
}

/// A string with leading and trailing whitespace removed.
pub open spec fn trim_spec(s: Seq<char>) -> Seq<char> {
    trim_back(trim_front(s))
}

fn is_ws(c: char) -> (r: bool)
    ensures
        r == is_ws_char(c),
{
    c == ' ' || c == '\t' || c == '\n' || c == '\r' || c == '\u{0b}' || c == '\u{0c}'
        || c == '\u{85}' || c == '\u{a0}' || c == '\u{1680}' || c == '\u{2000}' || c == '\u{2001}'
        || c == '\u{2002}' || c == '\u{2003}' || c == '\u{2004}' || c == '\u{2005}'
        || c == '\u{2006}' || c == '\u{2007}' || c == '\u{2008}' || c == '\u{2009}'
        || c == '\u{200a}' || c == '\u{2028}' || c == '\u{2029}' || c == '\u{202f}'
        || c == '\u{205f}' || c == '\u{3000}'
}

/// Removes leading and trailing whitespace.
pub fn trim_str(s: &str) -> (r: String)
    ensures
        r@ == trim_spec(s@),
{
    let len = s.unicode_len();
    let mut a: usize = 0;
    proof {
        assert(s@.skip(0) =~= s@);
    }
    while a < len && is_ws(s.get_char(a))
        invariant
            0 <= a <= len,
            len == s@.len(),
            trim_front(s@) == trim_front(s@.skip(a as int)),
        decreases len - a,
    {
        proof {
            assert(s@.skip(a as int).skip(1) =~= s@.skip(a as int + 1));
        }
        a = a + 1;
    }
    let t = Ghost(s@.skip(a as int));
    proof {
        if a < len {
            assert(trim_front(s@) == t@);
        } else {
            assert(t@ =~= Seq::<char>::empty());
            assert(trim_front(s@) == t@);
        }
    }
    let mut b: usize = len;
    proof {
        assert(t@.take(len as int - a as int) =~= t@);
    }
    while b > a && is_ws(s.get_char(b - 1))
        invariant
            a <= b <= len,
            len == s@.len(),
            t@ == s@.skip(a as int),
            trim_front(s@) == t@,
            trim_back(t@) == trim_back(t@.take(b as int - a as int)),
        decreases b,
    {
        proof {
            let cur = t@.take(b as int - a as int);
            assert(cur.last() == s@[b as int - 1]);
            assert(cur.drop_last() =~= t@.take(b as int - 1 - a as int));
        }
        b = b - 1;
    }
    proof {
        let cur = t@.take(b as int - a as int);
        if b > a {
            assert(cur.last() == s@[b as int - 1]);
            assert(!is_ws_char(cur.last()));
            assert(trim_back(cur) == cur);
        } else {
            assert(cur =~= Seq::<char>::empty());
            assert(trim_back(cur) == cur);
        }
        assert(cur =~= s@.subrange(a as int, b as int));
    }
    let piece = s.substring_char(a, b);
    String::from_str(piece)
}

/// True when `needle` occurs in `hay` as a contiguous run of characters.
pub open spec fn contains_sub(hay: Seq<char>, needle: Seq<char>) -> bool {
    exists|k: int|
        0 <= k <= hay.len() - needle.len() && #[trigger] hay.subrange(k, k + needle.len())
            == needle
}

/// Case-sensitive substring search, no tokenization: "wo" is found in "work".
pub fn contains_str(hay: &str, needle: &str) -> (r: bool)
    ensures
        r == contains_sub(hay@, needle@),
{
    let hay_len = hay.unicode_len();
    let needle_len = needle.unicode_len();
    if needle_len > hay_len {
        return false;
    }
    if needle_len == 0 {
        proof {
            assert(hay@.subrange(0, 0 + needle@.len() as int) =~= needle@);
        }
        return true;
    }
    let mut k: usize = 0;
    while k <= hay_len - needle_len
        invariant
            0 <= k <= hay_len - needle_len + 1,
            1 <= needle_len <= hay_len,
            hay_len == hay@.len(),
            needle_len == needle@.len(),
            forall|k2: int|
                0 <= k2 < k ==> #[trigger] hay@.subrange(k2, k2 + needle@.len() as int)
                    != needle@,
        decreases hay_len - needle_len + 1 - k,
    {
        let mut m: usize = 0;
        let mut matches = true;
        while m < needle_len
            invariant
                0 <= m <= needle_len,
                0 <= k <= hay_len - needle_len,
                hay_len == hay@.len(),
                needle_len == needle@.len(),
                matches ==> forall|m2: int|
                    0 <= m2 < m ==> hay@[k as int + m2] == #[trigger] needle@[m2],
                !matches ==> hay@.subrange(k as int, k as int + needle@.len() as int) != needle@,
            decreases needle_len - m,
        {
            if hay.get_char(k + m) != needle.get_char(m) {
                proof {
                    let sub = hay@.subrange(k as int, k as int + needle@.len() as int);
                    assert(sub[m as int] == hay@[k as int + m as int]);
                }
                matches = false;
            }
            m = m + 1;
        }
        if matches {
            proof {
                assert(hay@.subrange(k as int, k as int + needle@.len() as int) =~= needle@);
            }
            return true;
        }
        k = k + 1;
    }
    proof {
        assert(!contains_sub(hay@, needle@));
    }
    false
}

} // verus!
