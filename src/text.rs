//! Character classes and small text operations over `Seq<char>`.
use vstd::prelude::*;

verus! {

/// ASCII graphic characters: `!` through `~`.
pub open spec fn is_graphic(c: char) -> bool {
    '!' <= c && c <= '~'
}

pub open spec fn is_alnum(c: char) -> bool {
    ('0' <= c && c <= '9') || ('a' <= c && c <= 'z') || ('A' <= c && c <= 'Z')
}

/// Whitespace as `char::is_whitespace` defines it (Unicode `White_Space`).
pub open spec fn is_white(c: char) -> bool {
    c == ' ' || ('\t' <= c && c <= '\r') || c == '\u{85}' || c == '\u{a0}' || c == '\u{1680}'
        || ('\u{2000}' <= c && c <= '\u{200a}') || c == '\u{2028}' || c == '\u{2029}'
        || c == '\u{202f}' || c == '\u{205f}' || c == '\u{3000}'
}

pub fn graphic(c: char) -> (r: bool)
    ensures
        r == is_graphic(c),
{
    '!' <= c && c <= '~'
}

pub fn alnum(c: char) -> (r: bool)
    ensures
        r == is_alnum(c),
{
    ('0' <= c && c <= '9') || ('a' <= c && c <= 'z') || ('A' <= c && c <= 'Z')
}

pub fn white(c: char) -> (r: bool)
    ensures
        r == is_white(c),
{
    c == ' ' || ('\t' <= c && c <= '\r') || c == '\u{85}' || c == '\u{a0}' || c == '\u{1680}'
        || ('\u{2000}' <= c && c <= '\u{200a}') || c == '\u{2028}' || c == '\u{2029}'
        || c == '\u{202f}' || c == '\u{205f}' || c == '\u{3000}'
}

/// The characters of a string slice, in order.
pub fn chars_of(s: &str) -> (r: Vec<char>)
    ensures
        r@ == s@,
{
    let mut r: Vec<char> = Vec::new();
    for c in it: s.chars()
        invariant
            it.seq() == s@,
            r@ == it.seq().take(it.index() as int),
    {
        r.push(c);
    }
    r
}

/// Relies on `String`'s `FromIterator<char>`: collecting characters yields
/// the string made of exactly those characters, in order.
#[verifier::external_body]
pub fn string_of(v: &[char]) -> (r: String)
    ensures
        r@ == v@,
{
    v.iter().collect()
}

/// The view of a vector of strings as a set of character sequences.
pub open spec fn str_set(v: Seq<String>) -> Set<Seq<char>> {
    Set::new(|x: Seq<char>| exists|i: int| 0 <= i < v.len() && v[i]@ == x)
}

pub fn contains_str(v: &Vec<String>, x: &String) -> (r: bool)
    ensures
        r == str_set(v@).contains(x@),
{
    let mut i: usize = 0;
    while i < v.len()
        invariant
            i <= v.len(),
            forall|j: int| 0 <= j < i ==> v@[j]@ != x@,
        decreases v.len() - i,
    {
        if v[i] == *x {
            return true;
        }
        i = i + 1;
    }
    false
}

pub fn contains_char(v: &Vec<char>, c: char) -> (r: bool)
    ensures
        r == v@.contains(c),
{
    let mut i: usize = 0;
    while i < v.len()
        invariant
            i <= v.len(),
            forall|j: int| 0 <= j < i ==> v@[j] != c,
        decreases v.len() - i,
    {
        if v[i] == c {
            return true;
        }
        i = i + 1;
    }
    false
}

pub fn subset_str(a: &Vec<String>, b: &Vec<String>) -> (r: bool)
    ensures
        r == str_set(a@).subset_of(str_set(b@)),
{
    let mut i: usize = 0;
    while i < a.len()
        invariant
            i <= a@.len(),
            forall|j: int| 0 <= j < i ==> str_set(b@).contains(#[trigger] a@[j]@),
        decreases a@.len() - i,
    {
        if !contains_str(b, &a[i]) {
            assert(str_set(a@).contains(a@[i as int]@));
            return false;
        }
        i = i + 1;
    }
    assert forall|x: Seq<char>| str_set(a@).contains(x) implies str_set(b@).contains(x) by {
        let j = choose|j: int| 0 <= j < a@.len() && a@[j]@ == x;
        assert(str_set(b@).contains(a@[j]@));
    }
    true
}

pub fn subset_char(a: &Vec<char>, b: &Vec<char>) -> (r: bool)
    ensures
        r == a@.to_set().subset_of(b@.to_set()),
{
    let mut i: usize = 0;
    while i < a.len()
        invariant
            i <= a@.len(),
            forall|j: int| 0 <= j < i ==> b@.contains(#[trigger] a@[j]),
        decreases a@.len() - i,
    {
        if !contains_char(b, a[i]) {
            assert(a@.contains(a@[i as int]));
            assert(a@.to_set().contains(a@[i as int]));
            assert(!b@.to_set().contains(a@[i as int]));
            return false;
        }
        i = i + 1;
    }
    assert forall|c: char| a@.to_set().contains(c) implies b@.to_set().contains(c) by {
        let j = choose|j: int| 0 <= j < a@.len() && a@[j] == c;
        assert(b@.contains(a@[j]));
        assert(b@.to_set().contains(c));
    }
    true
}

/// A copy of a vector of strings.
pub fn copy_strings(v: &Vec<String>) -> (r: Vec<String>)
    ensures
        r@.len() == v@.len(),
        forall|i: int| 0 <= i < v@.len() ==> #[trigger] r@[i]@ == v@[i]@,
        str_set(r@) == str_set(v@),
{
    let mut r: Vec<String> = Vec::new();
    let mut i: usize = 0;
    while i < v.len()
        invariant
            i <= v@.len(),
            r@.len() == i,
            forall|j: int| 0 <= j < i ==> #[trigger] r@[j]@ == v@[j]@,
        decreases v@.len() - i,
    {
        r.push(v[i].clone());
        i = i + 1;
    }
    assert forall|x: Seq<char>| str_set(r@).contains(x) <==> str_set(v@).contains(x) by {
        if str_set(r@).contains(x) {
            let j = choose|j: int| 0 <= j < r@.len() && r@[j]@ == x;
            assert(v@[j]@ == x);
        }
        if str_set(v@).contains(x) {
            let j = choose|j: int| 0 <= j < v@.len() && v@[j]@ == x;
            assert(r@[j]@ == x);
        }
    }
    assert(str_set(r@) =~= str_set(v@));
    r
}

/// A string of one character.
pub fn name1(a: char) -> (r: String)
    ensures
        r@ == seq![a],
{
    let mut v: Vec<char> = Vec::new();
    v.push(a);
    assert(v@ =~= seq![a]);
    string_of(v.as_slice())
}

/// A string of two characters.
pub fn name2(a: char, b: char) -> (r: String)
    ensures
        r@ == seq![a, b],
{
    let mut v: Vec<char> = Vec::new();
    v.push(a);
    v.push(b);
    assert(v@ =~= seq![a, b]);
    string_of(v.as_slice())
}

pub open spec fn views(v: Seq<Vec<char>>) -> Seq<Seq<char>> {
    v.map_values(|x: Vec<char>| x@)
}

/// `s` cut at every `sep`: always at least one piece.
pub open spec fn split_on(s: Seq<char>, sep: char) -> Seq<Seq<char>>
    decreases s.len(),
{
    if s.len() == 0 {
        seq![Seq::<char>::empty()]
    } else {
        let p = split_on(s.drop_last(), sep);
        if s.last() == sep {
            p.push(Seq::<char>::empty())
        } else {
            p.update(p.len() - 1, p.last().push(s.last()))
        }
    }
}

pub proof fn lemma_split_on_nonempty(s: Seq<char>, sep: char)
    ensures
        split_on(s, sep).len() >= 1,
    decreases s.len(),
{
    if s.len() > 0 {
        lemma_split_on_nonempty(s.drop_last(), sep);
    }
}

/// A copy of `s[a..b]`.
pub fn copy_range(s: &[char], a: usize, b: usize) -> (r: Vec<char>)
    requires
        a <= b <= s@.len(),
    ensures
        r@ == s@.subrange(a as int, b as int),
{
    let mut r: Vec<char> = Vec::new();
    let mut i: usize = a;
    while i < b
        invariant
            a <= i <= b,
            b <= s@.len(),
            r@ == s@.subrange(a as int, i as int),
        decreases b - i,
    {
        r.push(s[i]);
        i = i + 1;
        assert(r@ =~= s@.subrange(a as int, i as int));
    }
    r
}

pub fn split_chars(s: &[char], sep: char) -> (r: Vec<Vec<char>>)
    ensures
        views(r@) == split_on(s@, sep),
{
    let mut out: Vec<Vec<char>> = Vec::new();
    let mut start: usize = 0;
    let mut i: usize = 0;
    assert(views(out@).push(s@.subrange(0, 0)) =~~= split_on(s@.take(0), sep));
    while i < s.len()
        invariant
            start <= i <= s@.len(),
            views(out@).push(s@.subrange(start as int, i as int)) == split_on(s@.take(i as int), sep),
        decreases s@.len() - i,
    {
        let ghost prev = views(out@).push(s@.subrange(start as int, i as int));
        assert(s@.take(i as int + 1).drop_last() =~= s@.take(i as int));
        if s[i] == sep {
            let ghost before = views(out@);
            let piece = copy_range(s, start, i);
            out.push(piece);
            assert(views(out@) =~= before.push(piece@));
            start = i + 1;
            assert(views(out@).push(s@.subrange(start as int, i as int + 1)) =~~= prev.push(
                Seq::<char>::empty(),
            ));
        } else {
            assert(views(out@).push(s@.subrange(start as int, i as int + 1)) =~~= prev.update(
                prev.len() - 1,
                prev.last().push(s@[i as int]),
            ));
        }
        i = i + 1;
    }
    let ghost before = views(out@);
    let last = copy_range(s, start, s.len());
    out.push(last);
    assert(s@.take(s@.len() as int) =~= s@);
    assert(views(out@) =~= before.push(last@));
    out
}

pub open spec fn drop_cr(l: Seq<char>) -> Seq<char> {
    if l.len() > 0 && l.last() == '\r' {
        l.drop_last()
    } else {
        l
    }
}

/// The lines of a text, as `str::lines` cuts them: at `\n` or `\r\n`, with
/// no empty line after a final line ending.
pub open spec fn text_lines(s: Seq<char>) -> Seq<Seq<char>> {
    Seq::new(line_count(split_on(s, '\n')), |k: int| line_at(split_on(s, '\n'), k))
}

/// Piece `k` of a text cut at `\n`, as a line: a `\r` before the cut goes.
pub open spec fn line_at(p: Seq<Seq<char>>, k: int) -> Seq<char> {
    if k < p.len() - 1 {
        drop_cr(p[k])
    } else {
        p[k]
    }
}

/// A final empty piece is no line.
pub open spec fn line_count(p: Seq<Seq<char>>) -> nat {
    if p.len() > 0 && p.last().len() == 0 {
        (p.len() - 1) as nat
    } else {
        p.len()
    }
}

proof fn lemma_text_lines_index(s: Seq<char>, k: int)
    requires
        0 <= k < text_lines(s).len(),
    ensures
        text_lines(s)[k] == line_at(split_on(s, '\n'), k),
{
}

pub fn lines_of(text: &[char]) -> (r: Vec<Vec<char>>)
    ensures
        views(r@) == text_lines(text@),
{
    let parts = split_chars(text, '\n');
    proof {
        lemma_split_on_nonempty(text@, '\n');
    }
    let ghost p = split_on(text@, '\n');
    let count: usize = if parts[parts.len() - 1].len() == 0 {
        parts.len() - 1
    } else {
        parts.len()
    };
    assert(parts@[parts@.len() - 1]@ == p.last());
    let mut out: Vec<Vec<char>> = Vec::new();
    let mut k: usize = 0;
    while k < count
        invariant
            views(parts@) == p,
            p == split_on(text@, '\n'),
            p.len() >= 1,
            count <= parts@.len(),
            count == text_lines(text@).len(),
            k <= count,
            views(out@) =~= text_lines(text@).take(k as int),
        decreases count - k,
    {
        let part = &parts[k];
        assert(part@ == p[k as int]);
        assert(parts@.len() == p.len());
        proof {
            lemma_text_lines_index(text@, k as int);
        }
        let line = if k + 1 < parts.len() && part.len() > 0 && part[part.len() - 1] == '\r' {
            copy_range(part.as_slice(), 0, part.len() - 1)
        } else {
            copy_range(part.as_slice(), 0, part.len())
        };
        assert(line@ =~= line_at(p, k as int)) by {
            if k + 1 < parts.len() {
                assert(line_at(p, k as int) == drop_cr(part@));
            } else {
                assert(line_at(p, k as int) == part@);
            }
        }
        assert(line@ == text_lines(text@)[k as int]);
        let ghost before = views(out@);
        let ghost lv = line@;
        out.push(line);
        assert(views(out@) =~= before.push(lv));
        assert(text_lines(text@).take(k as int + 1) =~= text_lines(text@).take(k as int).push(lv));
        k = k + 1;
    }
    assert(text_lines(text@).take(count as int) =~= text_lines(text@));
    out
}

pub open spec fn trim_start(s: Seq<char>) -> Seq<char>
    decreases s.len(),
{
    if s.len() > 0 && is_white(s[0]) {
        trim_start(s.drop_first())
    } else {
        s
    }
}

pub open spec fn trim_end(s: Seq<char>) -> Seq<char>
    decreases s.len(),
{
    if s.len() > 0 && is_white(s.last()) {
        trim_end(s.drop_last())
    } else {
        s
    }
}

/// `s` without leading and trailing whitespace.
pub open spec fn trim(s: Seq<char>) -> Seq<char> {
    trim_end(trim_start(s))
}

proof fn lemma_trim_start_len(s: Seq<char>)
    ensures
        trim_start(s).len() <= s.len(),
    decreases s.len(),
{
    if s.len() > 0 && is_white(s[0]) {
        lemma_trim_start_len(s.drop_first());
    }
}

proof fn lemma_trim_end_len(s: Seq<char>)
    ensures
        trim_end(s).len() <= s.len(),
    decreases s.len(),
{
    if s.len() > 0 && is_white(s.last()) {
        lemma_trim_end_len(s.drop_last());
    }
}

pub proof fn lemma_trim_len(s: Seq<char>)
    ensures
        trim(s).len() <= s.len(),
{
    lemma_trim_start_len(s);
    lemma_trim_end_len(trim_start(s));
}

pub fn trim_chars(s: &[char]) -> (r: Vec<char>)
    ensures
        r@ == trim(s@),
{
    let len = s.len();
    let mut a: usize = 0;
    assert(s@.subrange(0, len as int) =~= s@);
    while a < len && white(s[a])
        invariant
            a <= len == s@.len(),
            trim_start(s@.subrange(a as int, len as int)) == trim_start(s@),
        decreases len - a,
    {
        assert(s@.subrange(a as int, len as int).drop_first() =~= s@.subrange(a as int + 1, len as int));
        a = a + 1;
    }
    let mut b: usize = len;
    while b > a && white(s[b - 1])
        invariant
            a <= b <= len == s@.len(),
            trim_end(s@.subrange(a as int, b as int)) == trim(s@),
        decreases b,
    {
        assert(s@.subrange(a as int, b as int).drop_last() =~= s@.subrange(a as int, b as int - 1));
        b = b - 1;
    }
    copy_range(s, a, b)
}

/// `i` is the first position of `c` in `s`.
pub open spec fn is_first_of(s: Seq<char>, c: char, i: int) -> bool {
    &&& 0 <= i < s.len()
    &&& s[i] == c
    &&& forall|j: int| 0 <= j < i ==> s[j] != c
}

pub open spec fn find_first(s: Seq<char>, c: char) -> Option<int> {
    if exists|i: int| is_first_of(s, c, i) {
        Some(choose|i: int| is_first_of(s, c, i))
    } else {
        None
    }
}

pub fn find_char(s: &[char], c: char) -> (r: Option<usize>)
    ensures
        match r {
            Some(i) => find_first(s@, c) == Some(i as int),
            None => find_first(s@, c) is None && forall|j: int| 0 <= j < s@.len() ==> s@[j] != c,
        },
{
    let mut i: usize = 0;
    while i < s.len()
        invariant
            i <= s@.len(),
            forall|j: int| 0 <= j < i ==> s@[j] != c,
        decreases s@.len() - i,
    {
        if s[i] == c {
            assert(is_first_of(s@, c, i as int));
            let ghost k = choose|k: int| is_first_of(s@, c, k);
            assert(k == i as int) by {
                if k < i {
                    assert(s@[k] != c);
                } else if k > i {
                    assert(s@[i as int] != c);
                }
            }
            return Some(i);
        }
        i = i + 1;
    }
    None
}

/// The maximal runs of non-whitespace characters of `s`, in order.
pub open spec fn words(s: Seq<char>) -> Seq<Seq<char>>
    decreases s.len(),
{
    if s.len() == 0 {
        Seq::empty()
    } else {
        let w = words(s.drop_last());
        let c = s.last();
        if is_white(c) {
            w
        } else if s.len() >= 2 && !is_white(s[s.len() - 2]) {
            w.update(w.len() - 1, w.last().push(c))
        } else {
            w.push(seq![c])
        }
    }
}

proof fn lemma_words_last(s: Seq<char>)
    requires
        s.len() > 0,
        !is_white(s.last()),
    ensures
        words(s).len() > 0,
    decreases s.len(),
{
    if s.len() >= 2 && !is_white(s[s.len() - 2]) {
        lemma_words_last(s.drop_last());
    }
}

pub fn words_of(s: &[char]) -> (r: Vec<Vec<char>>)
    ensures
        views(r@) == words(s@),
{
    let mut out: Vec<Vec<char>> = Vec::new();
    let mut start: usize = 0;
    let mut in_word = false;
    let mut i: usize = 0;
    assert(views(out@) =~= words(s@.take(0)));
    while i < s.len()
        invariant
            start <= i <= s@.len(),
            in_word <==> (i > 0 && !is_white(s@[i - 1])),
            in_word ==> start < i,
            in_word ==> views(out@).push(s@.subrange(start as int, i as int)) == words(s@.take(i as int)),
            !in_word ==> views(out@) == words(s@.take(i as int)),
        decreases s@.len() - i,
    {
        let ghost t = s@.take(i as int + 1);
        assert(t.drop_last() =~= s@.take(i as int));
        if white(s[i]) {
            if in_word {
                let ghost before = views(out@);
                let w = copy_range(s, start, i);
                out.push(w);
                assert(views(out@) =~= before.push(w@));
            }
            in_word = false;
        } else {
            if in_word {
                proof {
                    lemma_words_last(s@.take(i as int));
                }
                assert(views(out@).push(s@.subrange(start as int, i as int + 1)) =~~= words(t));
            } else {
                start = i;
                assert(views(out@).push(s@.subrange(start as int, i as int + 1)) =~~= words(t));
            }
            in_word = true;
        }
        i = i + 1;
    }
    assert(s@.take(s@.len() as int) =~= s@);
    if in_word {
        let ghost before = views(out@);
        let w = copy_range(s, start, s.len());
        out.push(w);
        assert(views(out@) =~= before.push(w@));
    }
    out
}

} // verus!
