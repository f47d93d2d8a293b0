//! Text as sequences of characters: trimming, splitting, prefixes, whole
//! numbers, and the executable counterparts of each on `str`.

use vstd::prelude::*;

verus! {

/// `String::push` appends one character and changes nothing else.
pub assume_specification[ String::push ](s: &mut String, c: char)
    ensures
        final(s)@ == old(s)@.push(c),
;

/// What splits a line of text into pieces.
#[derive(Clone, Copy, PartialEq, Eq, Structural)]
pub enum Sep {
    /// Any white space.
    White,
    /// A comma or any white space.
    WhiteOrComma,
    /// One particular character.
    Is(char),
}

/// The Unicode `White_Space` property.
pub open spec fn white(c: char) -> bool {
    ||| '\u{9}' <= c && c <= '\u{d}'
    ||| c == ' '
    ||| c == '\u{85}'
    ||| c == '\u{a0}'
    ||| c == '\u{1680}'
    ||| '\u{2000}' <= c && c <= '\u{200a}'
    ||| c == '\u{2028}'
    ||| c == '\u{2029}'
    ||| c == '\u{202f}'
    ||| c == '\u{205f}'
    ||| c == '\u{3000}'
}

pub open spec fn is_digit(c: char) -> bool {
    '0' <= c && c <= '9'
}

impl Sep {
    pub open spec fn hits(self, c: char) -> bool {
        match self {
            Sep::White => white(c),
            Sep::WhiteOrComma => c == ',' || white(c),
            Sep::Is(d) => c == d,
        }
    }

    fn is_hit(&self, c: char) -> (r: bool)
        ensures
            r == self.hits(c),
    {
        match self {
            Sep::White => is_white(c),
            Sep::WhiteOrComma => c == ',' || is_white(c),
            Sep::Is(d) => c == *d,
        }
    }
}

pub fn is_white(c: char) -> (r: bool)
    ensures
        r == white(c),
{
    ('\u{9}' <= c && c <= '\u{d}') || c == ' ' || c == '\u{85}' || c == '\u{a0}'
        || c == '\u{1680}' || ('\u{2000}' <= c && c <= '\u{200a}') || c == '\u{2028}'
        || c == '\u{2029}' || c == '\u{202f}' || c == '\u{205f}' || c == '\u{3000}'
}

/// The views of a sequence of values.
pub open spec fn views<T: View>(v: Seq<T>) -> Seq<T::V> {
    Seq::new(v.len(), |i: int| v[i]@)
}

pub open spec fn opt<T: View>(s: Option<T>) -> Option<T::V> {
    match s {
        Some(t) => Some(t@),
        None => None,
    }
}

pub broadcast proof fn lemma_views_push<T: View>(v: Seq<T>, s: T)
    ensures
        #[trigger] views(v.push(s)) == views(v).push(s@),
{
    assert(views(v.push(s)) =~= views(v).push(s@));
}

pub open spec fn opt_views<T: View>(s: Option<Vec<T>>) -> Option<Seq<T::V>> {
    match s {
        Some(v) => Some(views(v@)),
        None => None,
    }
}

/// Values of which an equal one can be made.
pub trait Duplicate: View + Sized {
    fn duplicate(&self) -> (r: Self)
        ensures
            r@ == self@,
    ;
}

impl Duplicate for u64 {
    fn duplicate(&self) -> (r: u64) {
        *self
    }
}

impl Duplicate for bool {
    fn duplicate(&self) -> (r: bool) {
        *self
    }
}

impl Duplicate for String {
    fn duplicate(&self) -> (r: String) {
        copy(self.as_str())
    }
}

impl<A: Duplicate, B: Duplicate> Duplicate for (A, B) {
    fn duplicate(&self) -> (r: (A, B)) {
        (self.0.duplicate(), self.1.duplicate())
    }
}

impl<A: Duplicate, B: Duplicate, C: Duplicate> Duplicate for (A, B, C) {
    fn duplicate(&self) -> (r: (A, B, C)) {
        (self.0.duplicate(), self.1.duplicate(), self.2.duplicate())
    }
}

pub fn dup_vec<T: Duplicate>(v: &Vec<T>) -> (r: Vec<T>)
    ensures
        views(r@) == views(v@),
{
    let mut out: Vec<T> = Vec::new();
    let mut i: usize = 0;
    while i < v.len()
        invariant
            i <= v@.len(),
            out@.len() == i,
            forall|k: int| 0 <= k < i ==> (#[trigger] out@[k])@ == v@[k]@,
        decreases v@.len() - i,
    {
        out.push(v[i].duplicate());
        i = i + 1;
    }
    assert(views(out@) =~= views(v@));
    out
}

pub fn dup_opt<T: Duplicate>(v: &Option<T>) -> (r: Option<T>)
    ensures
        opt(r) == opt(*v),
{
    match v {
        Some(x) => Some(x.duplicate()),
        None => None,
    }
}

pub fn opt_copy_all(v: &Option<Vec<String>>) -> (r: Option<Vec<String>>)
    ensures
        opt_views(r) == opt_views(*v),
{
    match v {
        Some(x) => Some(copy_all(x)),
        None => None,
    }
}

// ---------------------------------------------------------------- characters

pub fn chars_of(s: &str) -> (r: Vec<char>)
    ensures
        r@ == s@,
{
    let mut out: Vec<char> = Vec::new();
    for c in it: s.chars()
        invariant
            out@ == it.seq().take(it.index() as int),
            it.seq() == s@,
    {
        out.push(c);
    }
    out
}

/// The characters from `from` up to `to`, as a string.
pub fn string_of(v: &Vec<char>, from: usize, to: usize) -> (r: String)
    requires
        from <= to <= v@.len(),
    ensures
        r@ == v@.subrange(from as int, to as int),
{
    let mut out = String::new();
    let mut i: usize = from;
    while i < to
        invariant
            from <= i <= to <= v@.len(),
            out@ == v@.subrange(from as int, i as int),
        decreases to - i,
    {
        out.push(v[i]);
        assert(v@.subrange(from as int, i + 1) =~= v@.subrange(from as int, i as int).push(
            v@[i as int],
        ));
        i = i + 1;
    }
    out
}

pub fn copy(s: &str) -> (r: String)
    ensures
        r@ == s@,
{
    String::from_str(s)
}

pub fn same(a: &str, b: &str) -> (r: bool)
    ensures
        r == (a@ == b@),
{
    copy(a) == copy(b)
}

pub fn is_empty(s: &str) -> (r: bool)
    ensures
        r == (s@.len() == 0),
{
    s.unicode_len() == 0
}

pub fn opt_copy(s: &Option<String>) -> (r: Option<String>)
    ensures
        opt(r) == opt(*s),
{
    match s {
        Some(t) => Some(copy(t.as_str())),
        None => None,
    }
}

pub fn opt_same(a: &Option<String>, b: &Option<String>) -> (r: bool)
    ensures
        r == (opt(*a) == opt(*b)),
{
    match (a, b) {
        (Some(x), Some(y)) => same(x.as_str(), y.as_str()),
        (None, None) => true,
        _ => false,
    }
}

pub fn copy_all(v: &Vec<String>) -> (r: Vec<String>)
    ensures
        views(r@) == views(v@),
{
    let mut out: Vec<String> = Vec::new();
    let mut i: usize = 0;
    while i < v.len()
        invariant
            i <= v@.len(),
            out@.len() == i,
            forall|k: int| 0 <= k < i ==> (#[trigger] out@[k])@ == v@[k]@,
        decreases v@.len() - i,
    {
        out.push(copy(v[i].as_str()));
        i = i + 1;
    }
    assert(views(out@) =~= views(v@));
    out
}

/// Whether `v` holds the text `s`.
pub fn holds(v: &Vec<String>, s: &str) -> (r: bool)
    ensures
        r == views(v@).contains(s@),
{
    let mut i: usize = 0;
    while i < v.len()
        invariant
            i <= v@.len(),
            forall|k: int| 0 <= k < i ==> (#[trigger] v@[k])@ != s@,
        decreases v@.len() - i,
    {
        if same(v[i].as_str(), s) {
            assert(views(v@)[i as int] == s@);
            return true;
        }
        i = i + 1;
    }
    assert(!views(v@).contains(s@)) by {
        if views(v@).contains(s@) {
            let k = choose|k: int| 0 <= k < views(v@).len() && views(v@)[k] == s@;
            assert(v@[k]@ != s@);
        }
    }
    false
}

/// The text at a place of a list.
pub fn item(v: &Vec<String>, i: usize) -> (r: &str)
    requires
        i < views(v@).len(),
    ensures
        r@ == views(v@)[i as int],
{
    v[i].as_str()
}

pub fn count<T: View>(v: &Vec<T>) -> (r: usize)
    ensures
        r == views(v@).len(),
        r == v@.len(),
{
    v.len()
}

// ------------------------------------------------------------------ trimming

pub open spec fn trimmed_start(s: Seq<char>) -> Seq<char>
    decreases s.len(),
{
    if s.len() > 0 && white(s[0]) {
        trimmed_start(s.skip(1))
    } else {
        s
    }
}

pub open spec fn trimmed_end(s: Seq<char>) -> Seq<char>
    decreases s.len(),
{
    if s.len() > 0 && white(s.last()) {
        trimmed_end(s.drop_last())
    } else {
        s
    }
}

/// `s` without its leading and trailing white space.
pub open spec fn trimmed(s: Seq<char>) -> Seq<char> {
    trimmed_end(trimmed_start(s))
}

pub fn trim_start(s: &str) -> (r: String)
    ensures
        r@ == trimmed_start(s@),
{
    let v = chars_of(s);
    let mut i: usize = 0;
    proof {
        assert(v@.skip(0) =~= v@);
    }
    while i < v.len() && is_white(v[i])
        invariant
            i <= v@.len(),
            v@ == s@,
            trimmed_start(s@) == trimmed_start(v@.skip(i as int)),
        decreases v@.len() - i,
    {
        proof {
            assert(v@.skip(i as int).skip(1) =~= v@.skip(i + 1));
        }
        i = i + 1;
    }
    let n = v.len();
    proof {
        assert(v@.subrange(i as int, n as int) =~= v@.skip(i as int));
    }
    string_of(&v, i, n)
}

pub fn trim(s: &str) -> (r: String)
    ensures
        r@ == trimmed(s@),
{
    let t = trim_start(s);
    let v = chars_of(t.as_str());
    let mut n: usize = v.len();
    proof {
        assert(v@.take(n as int) =~= v@);
    }
    while n > 0 && is_white(v[n - 1])
        invariant
            n <= v@.len(),
            v@ == t@,
            trimmed_end(t@) == trimmed_end(v@.take(n as int)),
        decreases n,
    {
        proof {
            assert(v@.take(n as int).drop_last() =~= v@.take(n - 1));
        }
        n = n - 1;
    }
    proof {
        assert(v@.subrange(0, n as int) =~= v@.take(n as int));
    }
    string_of(&v, 0, n)
}

// ----------------------------------------------------------------- splitting

/// How many characters stand before the first one that `sep` hits.
pub open spec fn head_len(s: Seq<char>, sep: Sep) -> nat
    decreases s.len(),
{
    if s.len() == 0 || sep.hits(s[0]) {
        0
    } else {
        1 + head_len(s.skip(1), sep)
    }
}

pub proof fn lemma_head_len(s: Seq<char>, sep: Sep)
    ensures
        head_len(s, sep) <= s.len(),
        forall|k: int| 0 <= k < head_len(s, sep) ==> !sep.hits(#[trigger] s[k]),
        head_len(s, sep) < s.len() ==> sep.hits(s[head_len(s, sep) as int]),
    decreases s.len(),
{
    if s.len() > 0 && !sep.hits(s[0]) {
        lemma_head_len(s.skip(1), sep);
        let n = head_len(s.skip(1), sep);
        assert forall|k: int| 0 <= k < head_len(s, sep) implies !sep.hits(#[trigger] s[k]) by {
            if k > 0 {
                assert(s.skip(1)[k - 1] == s[k]);
            }
        }
    }
}

pub proof fn lemma_head_len_is(s: Seq<char>, sep: Sep, n: nat)
    requires
        n <= s.len(),
        forall|k: int| 0 <= k < n ==> !sep.hits(#[trigger] s[k]),
        n < s.len() ==> sep.hits(s[n as int]),
    ensures
        head_len(s, sep) == n,
{
    lemma_head_len(s, sep);
    let m = head_len(s, sep);
    if m < n {
        assert(!sep.hits(s[m as int]));
    } else if n < m {
        assert(!sep.hits(s[n as int]));
    }
}

/// The pieces of `s` between separators, empty pieces kept.
pub open spec fn pieces(s: Seq<char>, sep: Sep) -> Seq<Seq<char>>
    decreases s.len(),
{
    let n = head_len(s, sep);
    if n >= s.len() {
        seq![s]
    } else {
        seq![s.take(n as int)] + pieces(s.skip(n as int + 1), sep)
    }
}

/// The non-empty pieces of `s` between separators.
pub open spec fn words_by(s: Seq<char>, sep: Sep) -> Seq<Seq<char>>
    decreases s.len(),
{
    let n = head_len(s, sep);
    if s.len() == 0 {
        seq![]
    } else if n == 0 {
        words_by(s.skip(1), sep)
    } else if n >= s.len() {
        seq![s]
    } else {
        seq![s.take(n as int)] + words_by(s.skip(n as int), sep)
    }
}

pub open spec fn words_of(s: Seq<char>) -> Seq<Seq<char>> {
    words_by(s, Sep::White)
}

/// A line without the carriage return of a two-character line end.
pub open spec fn chomped(s: Seq<char>) -> Seq<char> {
    if s.len() > 0 && s.last() == '\r' {
        s.drop_last()
    } else {
        s
    }
}

/// The lines of a text; the last one need not be terminated.
pub open spec fn lines_of(s: Seq<char>) -> Seq<Seq<char>>
    decreases s.len(),
{
    let n = head_len(s, Sep::Is('\n'));
    if s.len() == 0 {
        seq![]
    } else if n >= s.len() {
        seq![s]
    } else {
        seq![chomped(s.take(n as int))] + lines_of(s.skip(n as int + 1))
    }
}

/// The end of the run of unhit characters that starts at `from`.
fn scan(v: &Vec<char>, from: usize, sep: Sep) -> (r: usize)
    requires
        from <= v@.len(),
    ensures
        from <= r <= v@.len(),
        r - from == head_len(v@.skip(from as int), sep),
        r < v@.len() ==> sep.hits(v@[r as int]),
        r > from ==> !sep.hits(v@[from as int]),
{
    let mut i: usize = from;
    while i < v.len() && !sep.is_hit(v[i])
        invariant
            from <= i <= v@.len(),
            forall|k: int| from <= k < i ==> !sep.hits(#[trigger] v@[k]),
        decreases v@.len() - i,
    {
        i = i + 1;
    }
    proof {
        let s = v@.skip(from as int);
        assert forall|k: int| 0 <= k < i - from implies !sep.hits(#[trigger] s[k]) by {
            assert(s[k] == v@[from + k]);
        }
        lemma_head_len_is(s, sep, (i - from) as nat);
    }
    i
}

pub fn split(s: &str, sep: Sep) -> (r: Vec<String>)
    ensures
        views(r@) == pieces(s@, sep),
{
    broadcast use lemma_views_push;

    let v = chars_of(s);
    let mut out: Vec<String> = Vec::new();
    let mut i: usize = 0;
    proof {
        assert(v@.skip(0) =~= v@);
        assert(views(out@) =~= Seq::<Seq<char>>::empty());
        assert(views(out@) + pieces(v@, sep) =~= pieces(v@, sep));
    }
    loop
        invariant
            i <= v@.len(),
            v@ == s@,
            pieces(s@, sep) == views(out@) + pieces(v@.skip(i as int), sep),
        decreases v@.len() - i,
    {
        let j = scan(&v, i, sep);
        let piece = string_of(&v, i, j);
        proof {
            assert(v@.subrange(i as int, j as int) =~= v@.skip(i as int).take(j - i));
        }
        if j >= v.len() {
            proof {
                assert(v@.skip(i as int).take(j - i) =~= v@.skip(i as int));
                assert(views(out@) + seq![piece@] =~= views(out@).push(piece@));
            }
            out.push(piece);
            return out;
        }
        proof {
            let rest = pieces(v@.skip(j + 1), sep);
            assert(v@.skip(i as int).skip(j - i + 1) =~= v@.skip(j + 1));
            assert(views(out@) + (seq![piece@] + rest) =~= views(out@).push(piece@) + rest);
        }
        out.push(piece);
        i = j + 1;
    }
}

pub fn words_with(s: &str, sep: Sep) -> (r: Vec<String>)
    ensures
        views(r@) == words_by(s@, sep),
{
    broadcast use lemma_views_push;

    let v = chars_of(s);
    let mut out: Vec<String> = Vec::new();
    let mut i: usize = 0;
    proof {
        assert(v@.skip(0) =~= v@);
        assert(views(out@) =~= Seq::<Seq<char>>::empty());
        assert(views(out@) + words_by(v@, sep) =~= words_by(v@, sep));
    }
    while i < v.len()
        invariant
            i <= v@.len(),
            v@ == s@,
            words_by(s@, sep) == views(out@) + words_by(v@.skip(i as int), sep),
        decreases v@.len() - i,
    {
        let j = scan(&v, i, sep);
        if j == i {
            proof {
                assert(v@.skip(i as int).skip(1) =~= v@.skip(i + 1));
            }
            i = i + 1;
        } else {
            let piece = string_of(&v, i, j);
            proof {
                assert(v@.subrange(i as int, j as int) =~= v@.skip(i as int).take(j - i));
                assert(v@.skip(i as int).skip(j - i) =~= v@.skip(j as int));
                if j >= v.len() {
                    assert(v@.skip(i as int).take(j - i) =~= v@.skip(i as int));
                    assert(words_by(v@.skip(j as int), sep) =~= Seq::<Seq<char>>::empty());
                    assert(views(out@) + seq![piece@] =~= views(out@).push(piece@) + words_by(
                        v@.skip(j as int),
                        sep,
                    ));
                } else {
                    let rest = words_by(v@.skip(j as int), sep);
                    assert(views(out@) + (seq![piece@] + rest) =~= views(out@).push(piece@) + rest);
                }
            }
            out.push(piece);
            i = j;
        }
    }
    proof {
        assert(views(out@) + words_by(v@.skip(i as int), sep) =~= views(out@));
    }
    out
}

pub fn words(s: &str) -> (r: Vec<String>)
    ensures
        views(r@) == words_of(s@),
{
    words_with(s, Sep::White)
}

pub fn lines(s: &str) -> (r: Vec<String>)
    ensures
        views(r@) == lines_of(s@),
{
    broadcast use lemma_views_push;

    let nl = Sep::Is('\n');
    let v = chars_of(s);
    let mut out: Vec<String> = Vec::new();
    let mut i: usize = 0;
    proof {
        assert(v@.skip(0) =~= v@);
        assert(views(out@) =~= Seq::<Seq<char>>::empty());
        assert(views(out@) + lines_of(v@) =~= lines_of(v@));
    }
    while i < v.len()
        invariant
            i <= v@.len(),
            v@ == s@,
            nl == Sep::Is('\n'),
            lines_of(s@) == views(out@) + lines_of(v@.skip(i as int)),
        decreases v@.len() - i,
    {
        let j = scan(&v, i, nl);
        proof {
            assert(v@.subrange(i as int, j as int) =~= v@.skip(i as int).take(j - i));
        }
        if j >= v.len() {
            let line = string_of(&v, i, j);
            proof {
                assert(v@.skip(i as int).take(j - i) =~= v@.skip(i as int));
                assert(views(out@) + seq![line@] =~= views(out@).push(line@));
                assert(lines_of(v@.skip(j as int)) =~= Seq::<Seq<char>>::empty());
                assert(views(out@).push(line@) + lines_of(v@.skip(j as int)) =~= views(out@).push(
                    line@,
                ));
            }
            out.push(line);
            i = j;
        } else {
            let end = if j > i && v[j - 1] == '\r' {
                j - 1
            } else {
                j
            };
            let line = string_of(&v, i, end);
            proof {
                let whole = v@.skip(i as int).take(j - i);
                if j > i && v@[j - 1] == '\r' {
                    assert(v@.subrange(i as int, end as int) =~= whole.drop_last());
                }
                assert(line@ == chomped(whole));
                let rest = lines_of(v@.skip(j + 1));
                assert(v@.skip(i as int).skip(j - i + 1) =~= v@.skip(j + 1));
                assert(views(out@) + (seq![line@] + rest) =~= views(out@).push(line@) + rest);
            }
            out.push(line);
            i = j + 1;
        }
    }
    proof {
        assert(views(out@) + lines_of(v@.skip(i as int)) =~= views(out@));
    }
    out
}

/// What stands before and after the first `c` in `s`.
pub open spec fn cut_first(s: Seq<char>, c: char) -> Option<(Seq<char>, Seq<char>)> {
    let n = head_len(s, Sep::Is(c));
    if n >= s.len() {
        None
    } else {
        Some((s.take(n as int), s.skip(n as int + 1)))
    }
}

pub open spec fn cut_view(r: Option<(String, String)>) -> Option<(Seq<char>, Seq<char>)> {
    match r {
        Some((a, b)) => Some((a@, b@)),
        None => None,
    }
}

pub fn split_once(s: &str, c: char) -> (r: Option<(String, String)>)
    ensures
        cut_view(r) == cut_first(s@, c),
{
    let v = chars_of(s);
    let j = scan(&v, 0, Sep::Is(c));
    proof {
        assert(v@.skip(0) =~= v@);
    }
    if j >= v.len() {
        None
    } else {
        let n = v.len();
        proof {
            assert(v@.subrange(0, j as int) =~= v@.take(j as int));
            assert(v@.subrange(j + 1, n as int) =~= v@.skip(j + 1));
        }
        Some((string_of(&v, 0, j), string_of(&v, j + 1, n)))
    }
}

/// The position of the last `c` in `s`, or -1.
pub open spec fn last_at(s: Seq<char>, c: char) -> int
    decreases s.len(),
{
    if s.len() == 0 {
        -1
    } else if s.last() == c {
        s.len() - 1
    } else {
        last_at(s.drop_last(), c)
    }
}

/// What stands before the last `c` in `s`; all of `s` where there is none.
pub open spec fn before_last(s: Seq<char>, c: char) -> Seq<char> {
    let n = last_at(s, c);
    if n < 0 {
        s
    } else {
        s.take(n)
    }
}

pub fn parent_of(s: &str, c: char) -> (r: String)
    ensures
        r@ == before_last(s@, c),
{
    let v = chars_of(s);
    let mut n: usize = v.len();
    proof {
        assert(v@.take(n as int) =~= v@);
    }
    while n > 0
        invariant
            n <= v@.len(),
            v@ == s@,
            last_at(s@, c) == last_at(v@.take(n as int), c),
        decreases n,
    {
        if v[n - 1] == c {
            proof {
                assert(v@.subrange(0, n - 1) =~= v@.take(n - 1));
            }
            return string_of(&v, 0, n - 1);
        }
        proof {
            assert(v@.take(n as int).drop_last() =~= v@.take(n - 1));
        }
        n = n - 1;
    }
    copy(s)
}

// ------------------------------------------------------ prefixes and suffixes

pub open spec fn has_prefix(s: Seq<char>, p: Seq<char>) -> bool {
    p.len() <= s.len() && s.take(p.len() as int) == p
}

pub open spec fn after_prefix(s: Seq<char>, p: Seq<char>) -> Option<Seq<char>> {
    if has_prefix(s, p) {
        Some(s.skip(p.len() as int))
    } else {
        None
    }
}

pub open spec fn has_suffix(s: Seq<char>, p: Seq<char>) -> bool {
    p.len() <= s.len() && s.skip(s.len() - p.len()) == p
}

pub open spec fn before_suffix(s: Seq<char>, p: Seq<char>) -> Option<Seq<char>> {
    if has_suffix(s, p) {
        Some(s.take(s.len() - p.len()))
    } else {
        None
    }
}

/// Whether `p` stands somewhere in `s`.
pub open spec fn has_part(s: Seq<char>, p: Seq<char>) -> bool {
    exists|i: int| 0 <= i <= s.len() && has_prefix(#[trigger] s.skip(i), p)
}

/// Whether `p` stands in `v` from position `at` on.
fn stands_at(v: &Vec<char>, p: &Vec<char>, at: usize) -> (r: bool)
    requires
        at <= v@.len(),
    ensures
        r == has_prefix(v@.skip(at as int), p@),
{
    if p.len() > v.len() - at {
        return false;
    }
    let mut i: usize = 0;
    while i < p.len()
        invariant
            i <= p@.len(),
            p@.len() <= v@.len() - at,
            v@.len() <= usize::MAX,
            forall|k: int| 0 <= k < i ==> v@[at + k] == #[trigger] p@[k],
        decreases p@.len() - i,
    {
        if v[at + i] != p[i] {
            assert(v@.skip(at as int).take(p@.len() as int)[i as int] != p@[i as int]);
            return false;
        }
        i = i + 1;
    }
    assert(v@.skip(at as int).take(p@.len() as int) =~= p@);
    true
}

pub fn starts_with(s: &str, p: &str) -> (r: bool)
    ensures
        r == has_prefix(s@, p@),
{
    let v = chars_of(s);
    let q = chars_of(p);
    proof {
        assert(v@.skip(0) =~= v@);
    }
    stands_at(&v, &q, 0)
}

pub fn strip_prefix(s: &str, p: &str) -> (r: Option<String>)
    ensures
        opt(r) == after_prefix(s@, p@),
{
    if starts_with(s, p) {
        let v = chars_of(s);
        let k = p.unicode_len();
        let n = v.len();
        proof {
            assert(v@.subrange(k as int, n as int) =~= v@.skip(k as int));
        }
        Some(string_of(&v, k, n))
    } else {
        None
    }
}

pub fn strip_suffix(s: &str, p: &str) -> (r: Option<String>)
    ensures
        opt(r) == before_suffix(s@, p@),
{
    let v = chars_of(s);
    let q = chars_of(p);
    if q.len() > v.len() {
        return None;
    }
    let at = v.len() - q.len();
    if stands_at(&v, &q, at) {
        proof {
            assert(v@.skip(at as int).take(q@.len() as int) =~= v@.skip(at as int));
            assert(v@.subrange(0, at as int) =~= v@.take(at as int));
        }
        Some(string_of(&v, 0, at))
    } else {
        proof {
            assert(v@.skip(at as int).take(q@.len() as int) =~= v@.skip(at as int));
        }
        None
    }
}

pub fn contains(s: &str, p: &str) -> (r: bool)
    ensures
        r == has_part(s@, p@),
{
    let v = chars_of(s);
    let q = chars_of(p);
    let mut i: usize = 0;
    loop
        invariant
            i <= v@.len(),
            v@ == s@,
            q@ == p@,
            forall|k: int| 0 <= k < i ==> !has_prefix(#[trigger] s@.skip(k), p@),
        decreases v@.len() - i,
    {
        if stands_at(&v, &q, i) {
            return true;
        }
        if i >= v.len() {
            return false;
        }
        i = i + 1;
    }
}

// ------------------------------------------------------------------- joining

/// The texts of `list` one after another, with `sep` between neighbours.
pub open spec fn joined(list: Seq<Seq<char>>, sep: Seq<char>) -> Seq<char>
    decreases list.len(),
{
    if list.len() == 0 {
        seq![]
    } else if list.len() == 1 {
        list[0]
    } else {
        joined(list.drop_last(), sep) + sep + list.last()
    }
}

pub fn join(list: &Vec<String>, sep: &str) -> (r: String)
    ensures
        r@ == joined(views(list@), sep@),
{
    let mut out = String::new();
    let mut i: usize = 0;
    let ghost all = views(list@);
    while i < list.len()
        invariant
            i <= list@.len(),
            all == views(list@),
            out@ == joined(all.take(i as int), sep@),
        decreases list@.len() - i,
    {
        proof {
            assert(all.take(i + 1).drop_last() =~= all.take(i as int));
        }
        if i > 0 {
            out.append(sep);
            out.append(list[i].as_str());
        } else {
            out.append(list[i].as_str());
            proof {
                assert(out@ =~= all.take(1)[0]);
            }
        }
        i = i + 1;
    }
    proof {
        assert(all.take(i as int) =~= all);
    }
    out
}

// ------------------------------------------------------------- whole numbers

pub open spec fn digits_value(s: Seq<char>) -> nat
    decreases s.len(),
{
    if s.len() == 0 {
        0
    } else {
        digits_value(s.drop_last()) * 10 + (s.last() as nat - '0' as nat) as nat
    }
}

pub open spec fn all_digits(s: Seq<char>) -> bool {
    forall|i: int| 0 <= i < s.len() ==> is_digit(#[trigger] s[i])
}

/// A decimal number without a minus sign that is at most `max`.
pub open spec fn number_upto(s: Seq<char>, max: nat) -> Option<nat> {
    let d = if s.len() > 0 && s[0] == '+' {
        s.skip(1)
    } else {
        s
    };
    if d.len() > 0 && all_digits(d) && digits_value(d) <= max {
        Some(digits_value(d))
    } else {
        None
    }
}

pub open spec fn number(s: Seq<char>) -> Option<u64> {
    match number_upto(s, u64::MAX as nat) {
        Some(n) => Some(n as u64),
        None => None,
    }
}

pub open spec fn number32(s: Seq<char>) -> Option<u32> {
    match number_upto(s, u32::MAX as nat) {
        Some(n) => Some(n as u32),
        None => None,
    }
}

proof fn lemma_digits_grow(s: Seq<char>, k: int)
    requires
        0 <= k <= s.len(),
        all_digits(s),
    ensures
        digits_value(s.take(k)) <= digits_value(s),
    decreases s.len() - k,
{
    if k < s.len() {
        lemma_digits_grow(s, k + 1);
        assert(s.take(k + 1).drop_last() =~= s.take(k));
        assert(is_digit(s[k]));
    } else {
        assert(s.take(k) =~= s);
    }
}

pub fn parse_u64(s: &str) -> (r: Option<u64>)
    ensures
        r == number(s@),
{
    let v = chars_of(s);
    let from: usize = if v.len() > 0 && v[0] == '+' {
        1
    } else {
        0
    };
    let ghost d = v@.skip(from as int);
    proof {
        if from == 0 {
            assert(d =~= v@);
        }
    }
    if v.len() == from {
        return None;
    }
    let mut total: u64 = 0;
    let mut i: usize = from;
    proof {
        assert(d.take(0) =~= Seq::<char>::empty());
    }
    while i < v.len()
        invariant
            from <= i <= v@.len(),
            from <= 1,
            v@ == s@,
            d == v@.skip(from as int),
            d.len() > 0,
            from == (if v@.len() > 0 && v@[0] == '+' { 1int } else { 0int }),
            d == (if v@.len() > 0 && v@[0] == '+' { v@.skip(1) } else { v@ }),
            forall|k: int| 0 <= k < i - from ==> is_digit(#[trigger] d[k]),
            total == digits_value(d.take(i - from)),
        decreases v@.len() - i,
    {
        let c = v[i];
        proof {
            assert(d[i - from] == c);
            assert(d.take(i - from + 1).drop_last() =~= d.take(i - from));
        }
        if !('0' <= c && c <= '9') {
            return None;
        }
        let digit: u64 = (c as u32 - '0' as u32) as u64;
        if total > (u64::MAX - digit) / 10 {
            proof {
                assert(digits_value(d.take(i - from + 1)) > u64::MAX);
                if all_digits(d) {
                    lemma_digits_grow(d, i - from + 1);
                }
            }
            return None;
        }
        total = total * 10 + digit;
        i = i + 1;
    }
    proof {
        assert(d.take(i - from) =~= d);
    }
    Some(total)
}

pub fn parse_u32(s: &str) -> (r: Option<u32>)
    ensures
        r == number32(s@),
{
    match parse_u64(s) {
        Some(n) => {
            if n <= u32::MAX as u64 {
                Some(n as u32)
            } else {
                None
            }
        },
        None => None,
    }
}

/// A whole number in decimal notation.
pub open spec fn decimal(n: nat) -> Seq<char>
    decreases n,
{
    if n < 10 {
        seq![digit_char(n)]
    } else {
        decimal(n / 10).push(digit_char(n % 10))
    }
}

pub open spec fn digit_char(n: nat) -> char {
    ('0' as nat + n) as char
}

pub fn digit_text(n: u8) -> (c: char)
    requires
        n < 10,
    ensures
        c == digit_char(n as nat),
        is_digit(c),
{
    (48 + n) as char
}

pub fn u64_text(n: u64) -> (r: String)
    ensures
        r@ == decimal(n as nat),
    decreases n,
{
    if n < 10 {
        let mut out = String::new();
        out.push(digit_text(n as u8));
        proof {
            assert(out@ =~= decimal(n as nat));
        }
        out
    } else {
        let mut out = u64_text(n / 10);
        out.push(digit_text((n % 10) as u8));
        out
    }
}

/// A whole number of up to 128 bits in decimal notation.
pub fn wide_text(n: u128) -> (r: String)
    ensures
        r@ == decimal(n as nat),
    decreases n,
{
    if n < 10 {
        let mut out = String::new();
        out.push(digit_text(n as u8));
        proof {
            assert(out@ =~= decimal(n as nat));
        }
        out
    } else {
        let mut out = wide_text(n / 10);
        out.push(digit_text((n % 10) as u8));
        out
    }
}

pub fn usize_text(n: usize) -> (r: String)
    ensures
        r@ == decimal(n as nat),
{
    u64_text(n as u64)
}

// -------------------------------------------------------------- debug notation

/// A text in quotation marks, with the escapes that `Debug` for `str` writes.
pub uninterp spec fn quoted(s: Seq<char>) -> Seq<char>;

/// Calls the `Debug` implementation of `str`. The claim is that its result
/// depends on the text alone; which characters it escapes is left to the
/// standard library.
#[verifier::external_body]
pub(crate) fn debug_text(s: &str) -> (r: String)
    ensures
        r@ == quoted(s@),
{
    format!("{:?}", s)
}

/// Items in square brackets.
pub open spec fn bracketed(items: Seq<Seq<char>>) -> Seq<char> {
    "["@ + joined(items, ", "@) + "]"@
}

pub fn in_brackets(items: &Vec<String>) -> (r: String)
    ensures
        r@ == bracketed(views(items@)),
{
    cat3("[", join(items, ", ").as_str(), "]")
}

pub open spec fn all_quoted(items: Seq<Seq<char>>) -> Seq<Seq<char>> {
    Seq::new(items.len(), |i: int| quoted(items[i]))
}

pub fn quote_all(items: &Vec<String>) -> (r: Vec<String>)
    ensures
        views(r@) == all_quoted(views(items@)),
{
    let mut r: Vec<String> = Vec::new();
    let mut i: usize = 0;
    while i < items.len()
        invariant
            i <= items@.len(),
            r@.len() == i,
            forall|k: int| 0 <= k < i ==> (#[trigger] r@[k])@ == quoted(items@[k]@),
        decreases items@.len() - i,
    {
        r.push(debug_text(items[i].as_str()));
        i = i + 1;
    }
    assert(views(r@) =~= all_quoted(views(items@)));
    r
}

pub open spec fn opt_bool(b: Option<bool>) -> Seq<char> {
    match b {
        Some(true) => "Some(true)"@,
        Some(false) => "Some(false)"@,
        None => "None"@,
    }
}

pub fn opt_bool_text(b: Option<bool>) -> (r: &'static str)
    ensures
        r@ == opt_bool(b),
{
    match b {
        Some(true) => "Some(true)",
        Some(false) => "Some(false)",
        None => "None",
    }
}

pub open spec fn opt_number(n: Option<u64>) -> Seq<char> {
    match n {
        Some(v) => "Some("@ + decimal(v as nat) + ")"@,
        None => "None"@,
    }
}

pub fn opt_number_text(n: Option<u64>) -> (r: String)
    ensures
        r@ == opt_number(n),
{
    match n {
        Some(v) => cat3("Some(", u64_text(v).as_str(), ")"),
        None => copy("None"),
    }
}

// ------------------------------------------------------------- concatenation

pub fn cat2(a: &str, b: &str) -> (r: String)
    ensures
        r@ == a@ + b@,
{
    let mut r = copy(a);
    r.append(b);
    r
}

pub fn cat3(a: &str, b: &str, c: &str) -> (r: String)
    ensures
        r@ == a@ + b@ + c@,
{
    let mut r = cat2(a, b);
    r.append(c);
    r
}

pub fn cat4(a: &str, b: &str, c: &str, d: &str) -> (r: String)
    ensures
        r@ == a@ + b@ + c@ + d@,
{
    let mut r = cat3(a, b, c);
    r.append(d);
    r
}

pub fn cat5(a: &str, b: &str, c: &str, d: &str, e: &str) -> (r: String)
    ensures
        r@ == a@ + b@ + c@ + d@ + e@,
{
    let mut r = cat4(a, b, c, d);
    r.append(e);
    r
}

pub fn cat6(a: &str, b: &str, c: &str, d: &str, e: &str, f: &str) -> (r: String)
    ensures
        r@ == a@ + b@ + c@ + d@ + e@ + f@,
{
    let mut r = cat5(a, b, c, d, e);
    r.append(f);
    r
}

pub fn cat7(a: &str, b: &str, c: &str, d: &str, e: &str, f: &str, g: &str) -> (r: String)
    ensures
        r@ == a@ + b@ + c@ + d@ + e@ + f@ + g@,
{
    let mut r = cat6(a, b, c, d, e, f);
    r.append(g);
    r
}

pub fn cat8(a: &str, b: &str, c: &str, d: &str, e: &str, f: &str, g: &str, h: &str) -> (r: String)
    ensures
        r@ == a@ + b@ + c@ + d@ + e@ + f@ + g@ + h@,
{
    let mut r = cat7(a, b, c, d, e, f, g);
    r.append(h);
    r
}

pub fn cat9(
    a: &str,
    b: &str,
    c: &str,
    d: &str,
    e: &str,
    f: &str,
    g: &str,
    h: &str,
    i: &str,
) -> (r: String)
    ensures
        r@ == a@ + b@ + c@ + d@ + e@ + f@ + g@ + h@ + i@,
{
    let mut r = cat8(a, b, c, d, e, f, g, h);
    r.append(i);
    r
}

pub fn cat10(
    a: &str,
    b: &str,
    c: &str,
    d: &str,
    e: &str,
    f: &str,
    g: &str,
    h: &str,
    i: &str,
    j: &str,
) -> (r: String)
    ensures
        r@ == a@ + b@ + c@ + d@ + e@ + f@ + g@ + h@ + i@ + j@,
{
    let mut r = cat9(a, b, c, d, e, f, g, h, i);
    r.append(j);
    r
}

pub fn cat11(
    a: &str,
    b: &str,
    c: &str,
    d: &str,
    e: &str,
    f: &str,
    g: &str,
    h: &str,
    i: &str,
    j: &str,
    k: &str,
) -> (r: String)
    ensures
        r@ == a@ + b@ + c@ + d@ + e@ + f@ + g@ + h@ + i@ + j@ + k@,
{
    let mut r = cat10(a, b, c, d, e, f, g, h, i, j);
    r.append(k);
    r
}

} // verus!
