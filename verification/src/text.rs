//! Character-level text operations on `str` and `String`, each specified over
//! the `Seq<char>` view of its arguments.
use vstd::prelude::*;
use vstd::string::*;

verus! {

/// The characters with the Unicode `White_Space` property, which is what
/// `char::is_whitespace` and `str::trim` go by.
pub open spec fn is_space(c: char) -> bool {
    let u = c as u32;
    ||| 0x9 <= u <= 0xD
    ||| u == 0x20
    ||| u == 0x85
    ||| u == 0xA0
    ||| u == 0x1680
    ||| 0x2000 <= u <= 0x200A
    ||| u == 0x2028
    ||| u == 0x2029
    ||| u == 0x202F
    ||| u == 0x205F
    ||| u == 0x3000
}

/// `s` without its leading white space.
pub open spec fn strip_leading(s: Seq<char>) -> Seq<char>
    decreases s.len(),
{
    if s.len() > 0 && is_space(s[0]) {
        strip_leading(s.drop_first())
    } else {
        s
    }
}

/// `s` without its trailing white space.
pub open spec fn strip_trailing(s: Seq<char>) -> Seq<char>
    decreases s.len(),
{
    if s.len() > 0 && is_space(s.last()) {
        strip_trailing(s.drop_last())
    } else {
        s
    }
}

/// `s` without leading and trailing white space: what `str::trim` returns.
pub open spec fn trimmed(s: Seq<char>) -> Seq<char> {
    strip_trailing(strip_leading(s))
}

/// The text of an optional value, the empty text where there is none.
pub open spec fn text_or_empty(s: Option<Seq<char>>) -> Seq<char> {
    match s {
        Some(t) => t,
        None => Seq::empty(),
    }
}

/// The text of an optional `String`.
pub open spec fn opt_text(o: Option<String>) -> Option<Seq<char>> {
    match o {
        Some(s) => Some(s@),
        None => None,
    }
}

/// The text of an optional value, or `default` where there is none.
pub open spec fn text_or(s: Option<Seq<char>>, default: Seq<char>) -> Seq<char> {
    match s {
        Some(t) => t,
        None => default,
    }
}

/// `needle` occurs in `hay` as a contiguous run of characters.
pub open spec fn has_infix(hay: Seq<char>, needle: Seq<char>) -> bool {
    exists|i: int|
        0 <= i && i + needle.len() <= hay.len() && #[trigger] hay.subrange(i, i + needle.len())
            == needle
}

/// Strict lexicographic order on character sequences, by code point. This is
/// the order of `String`'s `Ord`: UTF-8 byte order and code point order agree.
pub open spec fn text_lt(a: Seq<char>, b: Seq<char>) -> bool
    decreases a.len(),
{
    if a.len() == 0 {
        b.len() > 0
    } else if b.len() == 0 {
        false
    } else if a[0] != b[0] {
        (a[0] as int) < (b[0] as int)
    } else {
        text_lt(a.drop_first(), b.drop_first())
    }
}

/// `text_lt` is a strict total order.
pub proof fn lemma_text_lt_order(a: Seq<char>, b: Seq<char>, c: Seq<char>)
    ensures
        !text_lt(a, a),
        text_lt(a, b) ==> !text_lt(b, a),
        text_lt(a, b) && text_lt(b, c) ==> text_lt(a, c),
        a != b ==> text_lt(a, b) || text_lt(b, a),
    decreases a.len(),
{
    if a.len() > 0 && b.len() > 0 && c.len() > 0 {
        lemma_text_lt_order(a.drop_first(), b.drop_first(), c.drop_first());
    }
    if a.len() > 0 {
        lemma_text_lt_order(a.drop_first(), a.drop_first(), a.drop_first());
    }
    if a.len() > 0 && b.len() > 0 {
        lemma_text_lt_order(a.drop_first(), b.drop_first(), b.drop_first());
        if a[0] != b[0] {
            assert((a[0] as int) != (b[0] as int));
        }
        if a != b && a[0] == b[0] {
            if a.drop_first() == b.drop_first() {
                assert(a =~= seq![a[0]] + a.drop_first());
                assert(b =~= seq![b[0]] + b.drop_first());
            }
        }
    }
    if a.len() == 0 && b.len() == 0 {
        assert(a =~= b);
    }
}

/// `a >= b` in the order of `text_lt`.
pub open spec fn text_ge(a: Seq<char>, b: Seq<char>) -> bool {
    !text_lt(a, b)
}

/// The parts joined with `sep` between consecutive parts.
pub open spec fn joined(parts: Seq<Seq<char>>, sep: Seq<char>) -> Seq<char>
    decreases parts.len(),
{
    if parts.len() == 0 {
        Seq::empty()
    } else if parts.len() == 1 {
        parts[0]
    } else {
        joined(parts.drop_last(), sep) + sep + parts.last()
    }
}

/// `s` with each space `' '` replaced by `'+'`.
pub open spec fn plus_for_spaces(s: Seq<char>) -> Seq<char>
    decreases s.len(),
{
    if s.len() == 0 {
        Seq::empty()
    } else {
        plus_for_spaces(s.drop_last()) + (if s.last() == ' ' {
            seq!['+']
        } else {
            seq![s.last()]
        })
    }
}

/// The pieces of `s` between occurrences of `sep`, as `str::split` yields
/// them: one more piece than there are separators.
pub open spec fn split_on(s: Seq<char>, sep: char) -> Seq<Seq<char>>
    decreases s.len(),
{
    if s.len() == 0 {
        seq![Seq::empty()]
    } else {
        let p = split_on(s.drop_last(), sep);
        if s.last() == sep {
            p.push(Seq::empty())
        } else {
            p.update(p.len() - 1, p.last().push(s.last()))
        }
    }
}

/// `t` is `s` from `a` to `b`, with only white space before `a` and from `b`
/// on, and, where anything is left, no white space at either end of it.
pub open spec fn trim_bounds(s: Seq<char>, t: Seq<char>, a: int, b: int) -> bool {
    &&& 0 <= a <= b <= s.len()
    &&& t == s.subrange(a, b)
    &&& forall|i: int| 0 <= i < a ==> is_space(#[trigger] s[i])
    &&& forall|i: int| b <= i < s.len() ==> is_space(#[trigger] s[i])
    &&& a < b ==> !is_space(s[a]) && !is_space(s[b - 1])
}

proof fn lemma_strip_leading(s: Seq<char>) -> (a: int)
    ensures
        0 <= a <= s.len(),
        strip_leading(s) == s.subrange(a, s.len() as int),
        forall|i: int| 0 <= i < a ==> is_space(#[trigger] s[i]),
        a < s.len() ==> !is_space(s[a]),
    decreases s.len(),
{
    if s.len() > 0 && is_space(s[0]) {
        let a0 = lemma_strip_leading(s.drop_first());
        assert forall|i: int| 0 <= i < a0 + 1 implies is_space(#[trigger] s[i]) by {
            if i > 0 {
                assert(s[i] == s.drop_first()[i - 1]);
            }
        }
        assert(s.drop_first().subrange(a0, s.len() - 1) =~= s.subrange(a0 + 1, s.len() as int));
        a0 + 1
    } else {
        assert(s.subrange(0, s.len() as int) =~= s);
        0
    }
}

proof fn lemma_strip_trailing(s: Seq<char>) -> (b: int)
    ensures
        0 <= b <= s.len(),
        strip_trailing(s) == s.subrange(0, b),
        forall|i: int| b <= i < s.len() ==> is_space(#[trigger] s[i]),
        b > 0 ==> !is_space(s[b - 1]),
    decreases s.len(),
{
    if s.len() > 0 && is_space(s.last()) {
        let b0 = lemma_strip_trailing(s.drop_last());
        assert forall|i: int| b0 <= i < s.len() implies is_space(#[trigger] s[i]) by {
            if i < s.len() - 1 {
                assert(s[i] == s.drop_last()[i]);
            }
        }
        assert(s.drop_last().subrange(0, b0) =~= s.subrange(0, b0));
        b0
    } else {
        assert(s.subrange(0, s.len() as int) =~= s);
        s.len() as int
    }
}

/// Trimming cuts off exactly the white space at both ends: what is left is a
/// piece of the text that neither starts nor ends with white space, and only
/// white space was cut.
pub proof fn lemma_trimmed(s: Seq<char>)
    ensures
        exists|a: int, b: int| #[trigger] trim_bounds(s, trimmed(s), a, b),
{
    let a = lemma_strip_leading(s);
    let m = strip_leading(s);
    let b0 = lemma_strip_trailing(m);
    let b = a + b0;
    assert forall|i: int| b <= i < s.len() implies is_space(#[trigger] s[i]) by {
        assert(s[i] == m[i - a]);
    }
    assert(trimmed(s) =~= s.subrange(a, b));
    if a < b {
        assert(s[a] == m[0]);
        assert(s[b - 1] == m[b0 - 1]);
    }
    assert(trim_bounds(s, trimmed(s), a, b));
}

/// Replacing spaces by `+` keeps the length and every other character, and
/// turns each space into a `+`.
pub proof fn lemma_plus_for_spaces(s: Seq<char>)
    ensures
        plus_for_spaces(s).len() == s.len(),
        forall|i: int|
            0 <= i < s.len() ==> #[trigger] plus_for_spaces(s)[i] == (if s[i] == ' ' {
                '+'
            } else {
                s[i]
            }),
    decreases s.len(),
{
    if s.len() > 0 {
        lemma_plus_for_spaces(s.drop_last());
        assert forall|i: int| 0 <= i < s.len() implies #[trigger] plus_for_spaces(s)[i] == (if s[i] == ' ' {
            '+'
        } else {
            s[i]
        }) by {
            if i < s.len() - 1 {
                assert(s[i] == s.drop_last()[i]);
            }
        }
    }
}

/// Splitting on a separator gives pieces that hold no separator and that,
/// joined with it, give back the text.
pub proof fn lemma_split_on(s: Seq<char>, sep: char)
    ensures
        split_on(s, sep).len() > 0,
        joined(split_on(s, sep), seq![sep]) == s,
        forall|i: int, j: int|
            0 <= i < split_on(s, sep).len() && 0 <= j < split_on(s, sep)[i].len() ==> #[trigger] split_on(
                s,
                sep,
            )[i][j] != sep,
    decreases s.len(),
{
    if s.len() == 0 {
        assert(joined(seq![Seq::<char>::empty()], seq![sep]) == Seq::<char>::empty());
    } else {
        let d = s.drop_last();
        lemma_split_on(d, sep);
        let p = split_on(d, sep);
        let q = split_on(s, sep);
        if s.last() == sep {
            assert(q == p.push(Seq::empty()));
            assert(q.drop_last() =~= p);
            assert(joined(q, seq![sep]) == joined(p, seq![sep]) + seq![sep] + Seq::<char>::empty());
            assert(s =~= d + seq![sep] + Seq::<char>::empty());
            assert forall|i: int, j: int| 0 <= i < q.len() && 0 <= j < q[i].len() implies #[trigger] q[i][j] != sep by {
                if i < p.len() {
                    assert(q[i] == p[i]);
                }
            }
        } else {
            let n = p.len() - 1;
            assert(q == p.update(n, p.last().push(s.last())));
            if p.len() == 1 {
                assert(joined(p, seq![sep]) == p[0]);
                assert(joined(q, seq![sep]) == q[0]);
                assert(s =~= d.push(s.last()));
            } else {
                let pre = p.drop_last();
                assert(q.drop_last() =~= pre);
                assert(joined(p, seq![sep]) == joined(pre, seq![sep]) + seq![sep] + p.last());
                assert(joined(q, seq![sep]) == joined(pre, seq![sep]) + seq![sep] + p.last().push(s.last()));
                assert(joined(q, seq![sep]) =~= joined(p, seq![sep]).push(s.last()));
                assert(s =~= d.push(s.last()));
            }
            assert forall|i: int, j: int| 0 <= i < q.len() && 0 <= j < q[i].len() implies #[trigger] q[i][j] != sep by {
                if i < n {
                    assert(q[i] == p[i]);
                } else if j < p[n].len() {
                    assert(q[i][j] == p[n][j]);
                }
            }
        }
    }
}

proof fn lemma_split_without_sep(a: Seq<char>, sep: char)
    requires
        !a.contains(sep),
    ensures
        split_on(a, sep) == seq![a],
    decreases a.len(),
{
    if a.len() > 0 {
        let d = a.drop_last();
        assert(!d.contains(sep)) by {
            if d.contains(sep) {
                let i = choose|i: int| 0 <= i < d.len() && d[i] == sep;
                assert(a[i] == d[i]);
            }
        }
        lemma_split_without_sep(d, sep);
        assert(a[a.len() - 1] != sep);
        assert(a =~= d.push(a.last()));
    } else {
        assert(a =~= Seq::<char>::empty());
    }
}

/// A text that starts with a piece free of the separator, then the separator,
/// splits into that piece followed by the pieces of the rest.
pub proof fn lemma_split_after(a: Seq<char>, b: Seq<char>, sep: char)
    requires
        !a.contains(sep),
    ensures
        split_on(a + seq![sep] + b, sep) == seq![a] + split_on(b, sep),
    decreases b.len(),
{
    let s = a + seq![sep] + b;
    if b.len() == 0 {
        lemma_split_without_sep(a, sep);
        assert(s.drop_last() =~= a);
        assert(s.last() == sep);
        assert(split_on(b, sep) == seq![Seq::<char>::empty()]);
        assert(split_on(s, sep) =~= seq![a] + split_on(b, sep));
    } else {
        let b0 = b.drop_last();
        lemma_split_after(a, b0, sep);
        assert(s.drop_last() =~= a + seq![sep] + b0);
        assert(s.last() == b.last());
        let x = split_on(b0, sep);
        lemma_split_on(b0, sep);
        if b.last() == sep {
            assert(split_on(s, sep) =~= seq![a] + split_on(b, sep));
        } else {
            assert(split_on(b, sep) == x.update(x.len() - 1, x.last().push(b.last())));
            assert(split_on(s, sep) =~= seq![a] + split_on(b, sep));
        }
    }
}

/// Joining puts the separator between consecutive parts and nowhere else.
pub proof fn lemma_joined(a: Seq<char>, b: Seq<char>, c: Seq<char>, sep: Seq<char>)
    ensures
        joined(Seq::<Seq<char>>::empty(), sep).len() == 0,
        joined(seq![a], sep) == a,
        joined(seq![a, b], sep) == a + sep + b,
        joined(seq![a, b, c], sep) == a + sep + b + sep + c,
{
    let two = seq![a, b];
    let three = seq![a, b, c];
    assert(two.drop_last() =~= seq![a]);
    assert(joined(seq![a], sep) == a);
    assert(two.last() == b);
    assert(joined(two, sep) == joined(two.drop_last(), sep) + sep + two.last());
    assert(three.drop_last() =~= two);
    assert(three.last() == c);
    assert(joined(three, sep) == joined(three.drop_last(), sep) + sep + three.last());
}

/// A proper prefix comes first, and otherwise the first character where two
/// texts differ decides.
pub proof fn lemma_text_lt_decides(a: Seq<char>, b: Seq<char>, k: int)
    requires
        0 <= k <= a.len(),
        k <= b.len(),
        a.subrange(0, k) == b.subrange(0, k),
    ensures
        k == a.len() && k < b.len() ==> text_lt(a, b),
        k < a.len() && k < b.len() && (a[k] as int) < (b[k] as int) ==> text_lt(a, b),
        k < a.len() && k < b.len() && (a[k] as int) > (b[k] as int) ==> text_lt(b, a),
    decreases k,
{
    if k > 0 {
        assert(a[0] == a.subrange(0, k)[0]);
        assert(b[0] == b.subrange(0, k)[0]);
        assert(a.drop_first().subrange(0, k - 1) =~= a.subrange(0, k).drop_first());
        assert(b.drop_first().subrange(0, k - 1) =~= b.subrange(0, k).drop_first());
        lemma_text_lt_decides(a.drop_first(), b.drop_first(), k - 1);
    }
}

/// Whether `c` is white space in the sense of `char::is_whitespace`.
pub fn is_space_char(c: char) -> (r: bool)
    ensures
        r == is_space(c),
{
    let u = c as u32;
    (0x9 <= u && u <= 0xD) || u == 0x20 || u == 0x85 || u == 0xA0 || u == 0x1680 || (0x2000 <= u
        && u <= 0x200A) || u == 0x2028 || u == 0x2029 || u == 0x202F || u == 0x205F || u == 0x3000
}

/// `s` with leading and trailing white space removed, as `str::trim` does.
pub fn trim_text(s: &str) -> (r: String)
    ensures
        r@ == trimmed(s@),
{
    let n = s.unicode_len();
    let mut i: usize = 0;
    assert(s@.subrange(0, n as int) =~= s@);
    while i < n && is_space_char(s.get_char(i))
        invariant
            i <= n,
            n == s@.len(),
            strip_leading(s@) == strip_leading(s@.subrange(i as int, n as int)),
        decreases n - i,
    {
        assert(s@.subrange(i + 1, n as int) =~= s@.subrange(i as int, n as int).drop_first());
        i = i + 1;
    }
    assert(strip_leading(s@) == s@.subrange(i as int, n as int));
    let mut j: usize = n;
    while j > i && is_space_char(s.get_char(j - 1))
        invariant
            i <= j <= n,
            n == s@.len(),
            strip_leading(s@) == s@.subrange(i as int, n as int),
            strip_trailing(s@.subrange(i as int, n as int)) == strip_trailing(
                s@.subrange(i as int, j as int),
            ),
        decreases j - i,
    {
        assert(s@.subrange(i as int, j - 1) =~= s@.subrange(i as int, j as int).drop_last());
        j = j - 1;
    }
    assert(strip_trailing(s@.subrange(i as int, j as int)) == s@.subrange(i as int, j as int));
    let piece = s.substring_char(i, j);
    String::from_str(piece)
}

/// Whether the two texts are the same character sequence.
pub fn text_is(a: &str, b: &str) -> (r: bool)
    ensures
        r == (a@ == b@),
{
    let n = a.unicode_len();
    if n != b.unicode_len() {
        return false;
    }
    let mut i: usize = 0;
    while i < n
        invariant
            i <= n,
            n == a@.len(),
            n == b@.len(),
            forall|k: int| 0 <= k < i ==> a@[k] == b@[k],
        decreases n - i,
    {
        if a.get_char(i) != b.get_char(i) {
            return false;
        }
        i = i + 1;
    }
    assert(a@ =~= b@);
    true
}

/// The text of an optional `String`, the empty text where there is none.
pub fn text_of(o: &Option<String>) -> (r: String)
    ensures
        r@ == text_or_empty(opt_text(*o)),
{
    match o {
        Some(t) => t.clone(),
        None => String::new(),
    }
}

/// The text of an optional `&str`.
pub open spec fn opt_str(o: Option<&str>) -> Option<Seq<char>> {
    match o {
        Some(s) => Some(s@),
        None => None,
    }
}

/// A copy of an optional `String`.
pub fn copy_opt_text(o: &Option<String>) -> (r: Option<String>)
    ensures
        opt_text(r) == opt_text(*o),
{
    match o {
        Some(t) => Some(t.clone()),
        None => None,
    }
}

/// An optional `String` borrowed as an optional `&str`.
pub fn opt_as_str(o: &Option<String>) -> (r: Option<&str>)
    ensures
        opt_str(r) == opt_text(*o),
{
    match o {
        Some(t) => Some(t.as_str()),
        None => None,
    }
}

/// The position of the first text in `keys` equal to `k`.
pub fn find_text(keys: &Vec<String>, k: &str) -> (r: Option<usize>)
    ensures
        match r {
            Some(j) => j < keys@.len() && keys@[j as int]@ == k@ && forall|t: int|
                0 <= t < j ==> #[trigger] keys@[t]@ != k@,
            None => forall|t: int| 0 <= t < keys@.len() ==> #[trigger] keys@[t]@ != k@,
        },
{
    let n = keys.len();
    let mut i: usize = 0;
    while i < n
        invariant
            i <= n,
            n == keys@.len(),
            forall|t: int| 0 <= t < i ==> #[trigger] keys@[t]@ != k@,
        decreases n - i,
    {
        if text_is(keys[i].as_str(), k) {
            return Some(i);
        }
        i = i + 1;
    }
    None
}

/// Whether the text has no characters.
pub fn text_is_empty(s: &str) -> (r: bool)
    ensures
        r == (s@.len() == 0),
{
    s.unicode_len() == 0
}

/// Whether `needle` occurs in `hay`, as `str::contains` answers it.
pub fn contains_text(hay: &str, needle: &str) -> (r: bool)
    ensures
        r == has_infix(hay@, needle@),
{
    let h = hay.unicode_len();
    let m = needle.unicode_len();
    if m > h {
        return false;
    }
    let last = h - m;
    let mut i: usize = 0;
    loop
        invariant
            h == hay@.len(),
            m == needle@.len(),
            m <= h,
            last == h - m,
            i <= last,
            forall|k: int| 0 <= k < i ==> #[trigger] hay@.subrange(k, k + m) != needle@,
        ensures
            forall|k: int| 0 <= k <= last ==> #[trigger] hay@.subrange(k, k + m) != needle@,
        decreases last - i,
    {
        let mut j: usize = 0;
        let mut same = true;
        while j < m
            invariant
                h == hay@.len(),
                m == needle@.len(),
                i + m <= h,
                j <= m,
                same ==> forall|t: int| 0 <= t < j ==> hay@[i + t] == needle@[t],
                !same ==> hay@.subrange(i as int, i + m) != needle@,
            decreases m - j,
        {
            if same && hay.get_char(i + j) != needle.get_char(j) {
                assert(hay@.subrange(i as int, i + m)[j as int] != needle@[j as int]);
                same = false;
            }
            j = j + 1;
        }
        if same {
            assert(hay@.subrange(i as int, i + m) =~= needle@);
            return true;
        }
        if i == last {
            break;
        }
        i = i + 1;
    }
    assert forall|k: int| 0 <= k && k + needle@.len() <= hay@.len() implies #[trigger] hay@.subrange(
        k,
        k + needle@.len(),
    ) != needle@ by {
        assert(k <= last);
    }
    false
}

/// Whether `a >= b` in the order of `String`'s `Ord`.
pub fn text_at_least(a: &str, b: &str) -> (r: bool)
    ensures
        r == text_ge(a@, b@),
{
    let na = a.unicode_len();
    let nb = b.unicode_len();
    let mut i: usize = 0;
    assert(a@.subrange(0, na as int) =~= a@);
    assert(b@.subrange(0, nb as int) =~= b@);
    while i < na && i < nb
        invariant
            i <= na,
            i <= nb,
            na == a@.len(),
            nb == b@.len(),
            text_lt(a@, b@) == text_lt(
                a@.subrange(i as int, na as int),
                b@.subrange(i as int, nb as int),
            ),
        decreases na - i,
    {
        let ca = a.get_char(i);
        let cb = b.get_char(i);
        if ca != cb {
            return !(ca < cb);
        }
        assert(a@.subrange(i + 1, na as int) =~= a@.subrange(i as int, na as int).drop_first());
        assert(b@.subrange(i + 1, nb as int) =~= b@.subrange(i as int, nb as int).drop_first());
        i = i + 1;
    }
    !(i == na && i < nb)
}

/// The parts joined with `sep` between them, as `[String]::join` does.
pub fn join_texts(parts: &Vec<String>, sep: &str) -> (r: String)
    ensures
        r@ == joined(parts@.map_values(|p: String| p@), sep@),
{
    let ghost views = parts@.map_values(|p: String| p@);
    let mut r = String::new();
    let n = parts.len();
    let mut i: usize = 0;
    while i < n
        invariant
            i <= n,
            n == parts@.len(),
            views == parts@.map_values(|p: String| p@),
            r@ == joined(views.take(i as int), sep@),
        decreases n - i,
    {
        assert(views.take(i + 1).drop_last() =~= views.take(i as int));
        if i != 0 {
            r.append(sep);
        }
        r.append(parts[i].as_str());
        i = i + 1;
    }
    assert(views.take(n as int) =~= views);
    r
}

/// `s` with every space replaced by `'+'`, as `s.replace(' ', "+")` does.
pub fn spaces_to_plus(s: &str) -> (r: String)
    ensures
        r@ == plus_for_spaces(s@),
{
    let n = s.unicode_len();
    let mut r = String::new();
    let mut i: usize = 0;
    while i < n
        invariant
            i <= n,
            n == s@.len(),
            r@ == plus_for_spaces(s@.take(i as int)),
        decreases n - i,
    {
        assert(s@.take(i + 1).drop_last() =~= s@.take(i as int));
        if s.get_char(i) == ' ' {
            r.append("+");
            proof {
                reveal_strlit("+");
            }
            assert(r@ =~= plus_for_spaces(s@.take(i + 1)));
        } else {
            r.append(s.substring_char(i, i + 1));
            assert(r@ =~= plus_for_spaces(s@.take(i + 1)));
        }
        i = i + 1;
    }
    assert(s@.take(n as int) =~= s@);
    r
}

} // verus!
