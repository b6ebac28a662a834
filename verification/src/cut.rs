//! Cutting text into pieces: lines, words, fields, and what stands before or after a mark.
use vstd::prelude::*;
use crate::text;

verus! {

/// Kinds of characters by which text is cut.
#[derive(Debug, Clone, Copy, PartialEq, Eq, Structural)]
pub enum Class {
    /// White space.
    White,
    /// Single and double quotes.
    Quote,
    /// ASCII letters and digits, and the underscore.
    Ident,
    /// ASCII lower-case letters and digits, and the underscore.
    Atom,
    /// ASCII digits and the full stop.
    Dotted,
    /// White space and opening brackets.
    Gap,
    /// The letter that marks a version.
    Mark,
}

pub open spec fn lower_letter(c: char) -> bool {
    'a' <= c && c <= 'z'
}

pub open spec fn upper_letter(c: char) -> bool {
    'A' <= c && c <= 'Z'
}

pub open spec fn digit(c: char) -> bool {
    '0' <= c && c <= '9'
}

pub open spec fn ident_char(c: char) -> bool {
    lower_letter(c) || upper_letter(c) || digit(c) || c == '_'
}

pub open spec fn in_class(k: Class, c: char) -> bool {
    match k {
        Class::White => text::white(c),
        Class::Quote => c == '\'' || c == '"',
        Class::Ident => ident_char(c),
        Class::Atom => lower_letter(c) || digit(c) || c == '_',
        Class::Dotted => digit(c) || c == '.',
        Class::Gap => text::white(c) || c == '(',
        Class::Mark => c == 'v',
    }
}

/// Whether `c` is an ASCII letter or digit or the underscore.
pub fn is_ident_char(c: char) -> (r: bool)
    ensures
        r == ident_char(c),
{
    ('a' <= c && c <= 'z') || ('A' <= c && c <= 'Z') || ('0' <= c && c <= '9') || c == '_'
}

/// Whether `c` is of the kind.
pub fn is_in(k: Class, c: char) -> (r: bool)
    ensures
        r == in_class(k, c),
{
    match k {
        Class::White => text::is_white(c),
        Class::Quote => c == '\'' || c == '"',
        Class::Ident => is_ident_char(c),
        Class::Atom => ('a' <= c && c <= 'z') || ('0' <= c && c <= '9') || c == '_',
        Class::Dotted => ('0' <= c && c <= '9') || c == '.',
        Class::Gap => text::is_white(c) || c == '(',
        Class::Mark => c == 'v',
    }
}

/// Where the run of characters of the kind that starts at `from` ends.
pub open spec fn run_end(s: Seq<char>, from: int, k: Class) -> int
    decreases s.len() - from,
{
    if 0 <= from < s.len() && in_class(k, s[from]) {
        run_end(s, from + 1, k)
    } else {
        from
    }
}

pub proof fn lemma_run_end(s: Seq<char>, from: int, k: Class)
    requires
        0 <= from <= s.len(),
    ensures
        from <= run_end(s, from, k) <= s.len(),
    decreases s.len() - from,
{
    if from < s.len() && in_class(k, s[from]) {
        lemma_run_end(s, from + 1, k);
    }
}

/// Where the run of characters of the kind that starts at `from` ends.
pub fn run(s: &Vec<char>, from: usize, k: Class) -> (r: usize)
    requires
        from <= s.len(),
    ensures
        r == run_end(s@, from as int, k),
        from <= r <= s.len(),
{
    let mut i: usize = from;
    while i < s.len() && is_in(k, s[i])
        invariant
            from <= i <= s.len(),
            run_end(s@, from as int, k) == run_end(s@, i as int, k),
        decreases s.len() - i,
    {
        i += 1;
    }
    i
}

/// The text without the characters of the kind at its end.
pub open spec fn without_end(s: Seq<char>, k: Class) -> Seq<char>
    decreases s.len(),
{
    if s.len() > 0 && in_class(k, s.last()) {
        without_end(s.drop_last(), k)
    } else {
        s
    }
}

/// The text without the characters of the kind at its start.
pub open spec fn without_start(s: Seq<char>, k: Class) -> Seq<char> {
    s.skip(run_end(s, 0, k))
}

/// The text without white space at both ends.
pub open spec fn trimmed(s: Seq<char>) -> Seq<char> {
    without_end(without_start(s, Class::White), Class::White)
}

/// The text without the characters of the kind at its end.
pub fn trim_end(s: &str, k: Class) -> (r: String)
    ensures
        r@ == without_end(s@, k),
{
    let v: Vec<char> = text::chars(s);
    let mut n: usize = v.len();
    assert(v@.take(n as int) =~= v@);
    while n > 0 && is_in(k, v[n - 1])
        invariant
            n <= v.len(),
            without_end(v@, k) == without_end(v@.take(n as int), k),
        decreases n,
    {
        assert(v@.take(n as int).drop_last() =~= v@.take(n - 1));
        n -= 1;
    }
    assert(v@.take(n as int) =~= v@.subrange(0, n as int));
    text::text_of(&v, 0, n)
}

/// The text without the characters of the kind at its start.
pub fn trim_start(s: &str, k: Class) -> (r: String)
    ensures
        r@ == without_start(s@, k),
{
    let v: Vec<char> = text::chars(s);
    let i: usize = run(&v, 0, k);
    assert(v@.skip(i as int) =~= v@.subrange(i as int, v@.len() as int));
    text::text_of(&v, i, v.len())
}

/// The text without white space at both ends.
pub fn trim(s: &str) -> (r: String)
    ensures
        r@ == trimmed(s@),
{
    let t: String = trim_start(s, Class::White);
    trim_end(t.as_str(), Class::White)
}

/// What follows the prefix, where the text starts with it.
pub open spec fn after_prefix(s: Seq<char>, p: Seq<char>) -> Option<Seq<char>> {
    if text::occurs_at(s, p, 0) {
        Some(s.skip(p.len() as int))
    } else {
        None
    }
}

/// Whether the text starts with the prefix.
pub fn starts_with(s: &str, p: &str) -> (r: bool)
    ensures
        r == text::occurs_at(s@, p@, 0),
{
    text::stands_at(&text::chars(s), &text::chars(p), 0)
}

/// What follows the prefix, where the text starts with it.
pub fn strip_prefix(s: &str, p: &str) -> (r: Option<String>)
    ensures
        r.deep_view() == after_prefix(s@, p@),
{
    let v: Vec<char> = text::chars(s);
    let w: Vec<char> = text::chars(p);
    if text::stands_at(&v, &w, 0) {
        assert(v@.skip(w@.len() as int) =~= v@.subrange(w@.len() as int, v@.len() as int));
        Some(text::text_of(&v, w.len(), v.len()))
    } else {
        None
    }
}

/// The parts before and after the first place where the mark stands.
pub open spec fn halves(s: Seq<char>, mark: Seq<char>) -> Option<(Seq<char>, Seq<char>)> {
    match text::seek(s, mark, 0) {
        Some(i) => Some((s.take(i), s.skip(i + mark.len()))),
        None => None,
    }
}

/// The parts and the mark make up the text.
pub proof fn lemma_halves(s: Seq<char>, mark: Seq<char>)
    ensures
        halves(s, mark) matches Some((a, b)) ==> a.len() + mark.len() + b.len() == s.len() && s == a
            + mark + b,
{
    text::lemma_seek(s, mark, 0);
    if let Some((a, b)) = halves(s, mark) {
        assert(s =~= a + mark + b) by {
            let i = text::seek(s, mark, 0)->0;
            assert(s.subrange(i, i + mark.len()) == mark);
            assert(s =~= s.take(i) + s.subrange(i, i + mark.len()) + s.skip(i + mark.len()));
        }
    }
}

/// What stands before the first mark; the whole text where there is none.
pub open spec fn before_mark(s: Seq<char>, mark: Seq<char>) -> Seq<char> {
    match halves(s, mark) {
        Some((a, _)) => a,
        None => s,
    }
}

/// The parts before and after the first place where the mark stands.
pub fn split_once(s: &str, mark: &str) -> (r: Option<(String, String)>)
    ensures
        r.deep_view() == halves(s@, mark@),
{
    let v: Vec<char> = text::chars(s);
    let w: Vec<char> = text::chars(mark);
    match text::find(&v, &w, 0) {
        Some(i) => {
            proof {
                assert(v@.take(i as int) =~= v@.subrange(0, i as int));
                assert(v@.skip(i + w@.len()) =~= v@.subrange(i + w@.len(), v@.len() as int));
            }
            Some((text::text_of(&v, 0, i), text::text_of(&v, i + w.len(), v.len())))
        },
        None => None,
    }
}

/// What stands before the first mark; the whole text where there is none.
pub fn before(s: &str, mark: &str) -> (r: String)
    ensures
        r@ == before_mark(s@, mark@),
{
    match split_once(s, mark) {
        Some((a, _)) => a,
        None => s.to_owned(),
    }
}

/// The places where the mark stands at or after `from`, each after the end of the one before.
pub open spec fn hits(s: Seq<char>, mark: Seq<char>, from: int) -> Seq<int>
    decreases s.len() - from,
{
    if from < 0 || from > s.len() || mark.len() == 0 {
        Seq::empty()
    } else {
        match text::seek(s, mark, from) {
            Some(i) => {
                proof {
                    text::lemma_seek(s, mark, from);
                }
                seq![i] + hits(s, mark, i + mark.len())
            },
            None => Seq::empty(),
        }
    }
}

/// The places where the mark stands, each after the end of the one before.
pub fn find_all(s: &Vec<char>, mark: &Vec<char>) -> (r: Vec<usize>)
    requires
        mark.len() > 0,
    ensures
        r.len() == hits(s@, mark@, 0).len(),
        forall|j: int|
            0 <= j < r.len() ==> r[j] == #[trigger] hits(s@, mark@, 0)[j] && r[j] + mark.len()
                <= s.len(),
{
    let ghost all = hits(s@, mark@, 0);
    let mut r: Vec<usize> = Vec::new();
    let mut from: usize = 0;
    let mut more: bool = true;
    assert(all.skip(0) =~= all);
    while more
        invariant
            from <= s.len(),
            mark.len() > 0,
            all == hits(s@, mark@, 0),
            r.len() <= all.len(),
            forall|j: int| 0 <= j < r.len() ==> r@[j] == #[trigger] all[j],
            forall|j: int| 0 <= j < r.len() ==> #[trigger] all[j] + mark.len() <= s.len(),
            more ==> all.skip(r.len() as int) == hits(s@, mark@, from as int),
            !more ==> all.len() == r.len(),
        decreases s.len() - from, (if more { 1int } else { 0int }),
    {
        match text::find(s, mark, from) {
            Some(i) => {
                let ghost rest = all.skip(r.len() as int);
                proof {
                    assert(rest[0] == i);
                    assert(rest.len() > 0);
                    assert(r.len() < all.len());
                    assert(all[r.len() as int] == rest[0]);
                    assert(rest.skip(1) =~= hits(s@, mark@, i + mark@.len()));
                    assert(all.skip(r.len() + 1) =~= rest.skip(1));
                }
                let ghost before = r@;
                r.push(i);
                from = i + mark.len();
                assert(r@ =~= before.push(i));
            },
            None => {
                assert(all.skip(r.len() as int).len() == 0);
                more = false;
            },
        }
    }
    r
}

/// The last place where the mark stands.
pub open spec fn last_place(s: Seq<char>, mark: Seq<char>) -> Option<int>
    decreases s.len(),
{
    if s.len() < mark.len() {
        None
    } else if text::occurs_at(s, mark, s.len() - mark.len()) {
        Some(s.len() - mark.len())
    } else if s.len() == 0 {
        None
    } else {
        last_place(s.drop_last(), mark)
    }
}

/// What follows the last mark; the whole text where there is none.
pub open spec fn after_last_mark(s: Seq<char>, mark: Seq<char>) -> Seq<char> {
    match last_place(s, mark) {
        Some(i) => s.skip(i + mark.len()),
        None => s,
    }
}

/// The last place where the mark stands.
pub fn find_last(s: &Vec<char>, mark: &Vec<char>) -> (r: Option<usize>)
    ensures
        match r {
            Some(i) => last_place(s@, mark@) == Some(i as int) && i + mark.len() <= s.len(),
            None => last_place(s@, mark@) is None,
        },
{
    let mut n: usize = s.len();
    assert(s@.take(n as int) =~= s@);
    while n >= mark.len()
        invariant
            n <= s.len(),
            last_place(s@, mark@) == last_place(s@.take(n as int), mark@),
        decreases n,
    {
        let i: usize = n - mark.len();
        proof {
            if text::occurs_at(s@, mark@, i as int) {
                assert(s@.take(n as int).subrange(i as int, i + mark@.len()) =~= s@.subrange(
                    i as int,
                    i + mark@.len(),
                ));
            }
            if text::occurs_at(s@.take(n as int), mark@, i as int) {
                assert(s@.take(n as int).subrange(i as int, i + mark@.len()) =~= s@.subrange(
                    i as int,
                    i + mark@.len(),
                ));
            }
        }
        if text::stands_at(s, mark, i) {
            return Some(i);
        }
        if n == 0 {
            return None;
        }
        assert(s@.take(n as int).drop_last() =~= s@.take(n - 1));
        n -= 1;
    }
    None
}

/// What follows the last mark; the whole text where there is none.
pub fn after_last(s: &str, mark: &str) -> (r: String)
    ensures
        r@ == after_last_mark(s@, mark@),
{
    let v: Vec<char> = text::chars(s);
    let w: Vec<char> = text::chars(mark);
    match find_last(&v, &w) {
        Some(i) => {
            assert(v@.skip(i + w@.len()) =~= v@.subrange(i + w@.len(), v@.len() as int));
            text::text_of(&v, i + w.len(), v.len())
        },
        None => s.to_owned(),
    }
}

/// The pieces of a text between the separators.
pub fn split(s: &str, sep: char) -> (r: Vec<String>)
    ensures
        r.deep_view() == text::split_on(s@, sep),
        r.len() > 0,
{
    let v: Vec<char> = text::chars(s);
    let mut out: Vec<String> = Vec::new();
    let mut piece: String = String::new();
    let mut i: usize = 0;
    proof {
        assert(v@.take(0) =~= Seq::empty());
        assert(out.deep_view().push(piece@) =~= seq![Seq::<char>::empty()]);
    }
    while i < v.len()
        invariant
            i <= v.len(),
            out.deep_view().push(piece@) == text::split_on(v@.take(i as int), sep),
        decreases v.len() - i,
    {
        let ghost front = out.deep_view().push(piece@);
        proof {
            assert(v@.take(i + 1).drop_last() =~= v@.take(i as int));
        }
        if v[i] == sep {
            let ghost before = out.deep_view();
            let mut full: String = String::new();
            std::mem::swap(&mut full, &mut piece);
            out.push(full);
            assert(out.deep_view() =~= before.push(full@));
            assert(out.deep_view().push(piece@) =~= front.push(Seq::empty()));
        } else {
            piece.push(v[i]);
            assert(out.deep_view().push(piece@) =~= front.drop_last().push(
                front.last().push(v[i as int]),
            ));
        }
        i += 1;
    }
    let ghost before = out.deep_view();
    out.push(piece);
    proof {
        assert(out.deep_view() =~= before.push(piece@));
        assert(v@.take(i as int) =~= v@);
    }
    out
}

/// A line without the carriage return at its end.
pub open spec fn without_return(s: Seq<char>) -> Seq<char> {
    if s.len() > 0 && s.last() == '\r' {
        s.drop_last()
    } else {
        s
    }
}

/// The lines of a text: the pieces between line feeds, each that a line feed ends without a
/// carriage return at its end, and none after the last line feed where nothing follows it.
pub open spec fn lines_of(s: Seq<char>) -> Seq<Seq<char>> {
    let p = text::split_on(s, '\n');
    let ended = Seq::new((p.len() - 1) as nat, |i: int| without_return(p[i]));
    if p.last().len() == 0 {
        ended
    } else {
        ended.push(p.last())
    }
}

/// A separator between two texts separates their pieces.
pub proof fn lemma_split_joined(a: Seq<char>, b: Seq<char>, sep: char)
    ensures
        text::split_on(a, sep).len() > 0,
        text::split_on(a.push(sep) + b, sep) == text::split_on(a, sep) + text::split_on(b, sep),
    decreases a.len() + b.len(),
{
    if a.len() > 0 {
        lemma_split_joined(a.drop_last(), Seq::empty(), sep);
    }
    let p = text::split_on(a, sep);
    if b.len() == 0 {
        assert(a.push(sep) + b =~= a.push(sep));
        assert(a.push(sep).drop_last() =~= a);
        assert(p.push(Seq::empty()) =~= p + text::split_on(b, sep));
    } else {
        let front = b.drop_last();
        lemma_split_joined(a, front, sep);
        lemma_split_joined(front, Seq::empty(), sep);
        let q = text::split_on(front, sep);
        assert((a.push(sep) + b).drop_last() =~= a.push(sep) + front);
        assert((a.push(sep) + b).last() == b.last());
        if b.last() == sep {
            assert((p + q).push(Seq::empty()) =~= p + q.push(Seq::empty()));
        } else {
            assert((p + q).last() == q.last());
            assert((p + q).drop_last().push(q.last().push(b.last())) =~= p + q.drop_last().push(
                q.last().push(b.last()),
            ));
        }
    }
}

proof fn lemma_run_end_push(s: Seq<char>, from: int, k: Class, c: char)
    requires
        0 <= from <= s.len(),
        in_class(k, c),
    ensures
        run_end(s.push(c), from, k) == (if run_end(s, from, k) < s.len() {
            run_end(s, from, k)
        } else {
            s.len() as int + 1
        }),
    decreases s.len() - from,
{
    let t = s.push(c);
    if from < s.len() {
        assert(t[from] == s[from]);
        if in_class(k, s[from]) {
            lemma_run_end_push(s, from + 1, k, c);
        }
    } else {
        assert(t[from] == c);
        assert(run_end(t, from + 1, k) == from + 1);
    }
}

/// White space at the end of a text does not matter to what is left when it is trimmed.
pub proof fn lemma_trimmed_push(s: Seq<char>, c: char)
    requires
        text::white(c),
    ensures
        trimmed(s.push(c)) == trimmed(s),
{
    lemma_run_end_push(s, 0, Class::White, c);
    lemma_run_end(s, 0, Class::White);
    let e = run_end(s, 0, Class::White);
    if e < s.len() {
        assert(s.push(c).skip(e) =~= s.skip(e).push(c));
        assert(s.skip(e).push(c).drop_last() =~= s.skip(e));
    } else {
        assert(s.push(c).skip(s.len() as int + 1) =~= Seq::empty());
        assert(s.skip(e) =~= Seq::empty());
    }
}

/// The lines of a text.
pub fn lines(s: &str) -> (r: Vec<String>)
    ensures
        r.deep_view() == lines_of(s@),
{
    let p: Vec<String> = split(s, '\n');
    let ghost all = p.deep_view();
    let ghost want = lines_of(s@);
    let mut r: Vec<String> = Vec::new();
    let mut i: usize = 0;
    while i + 1 < p.len()
        invariant
            i < p.len(),
            all == p.deep_view(),
            all == text::split_on(s@, '\n'),
            r.deep_view() =~= Seq::new(i as nat, |j: int| without_return(all[j])),
        decreases p.len() - i,
    {
        let ghost before = r.deep_view();
        let v: Vec<char> = text::chars(p[i].as_str());
        let n: usize = if v.len() > 0 && v[v.len() - 1] == '\r' {
            v.len() - 1
        } else {
            v.len()
        };
        let line: String = text::text_of(&v, 0, n);
        assert(line@ =~= without_return(all[i as int]));
        r.push(line);
        assert(r.deep_view() =~= before.push(line@));
        i += 1;
    }
    let last: String = p[p.len() - 1].clone();
    if !last.as_str().is_empty() {
        let ghost before = r.deep_view();
        r.push(last);
        assert(r.deep_view() =~= before.push(last@));
    }
    assert(r.deep_view() =~= want);
    r
}

/// The words of a text: the longest runs without white space.
pub open spec fn words_of(s: Seq<char>) -> Seq<Seq<char>>
    decreases s.len(),
{
    if s.len() == 0 {
        Seq::empty()
    } else {
        let front = words_of(s.drop_last());
        if text::white(s.last()) {
            front
        } else if s.len() == 1 || text::white(s[s.len() - 2]) {
            front.push(seq![s.last()])
        } else {
            front.drop_last().push(front.last().push(s.last()))
        }
    }
}

/// The words of a text.
pub fn words(s: &str) -> (r: Vec<String>)
    ensures
        r.deep_view() == words_of(s@),
{
    let v: Vec<char> = text::chars(s);
    let mut out: Vec<String> = Vec::new();
    let mut word: String = String::new();
    let mut inside: bool = false;
    let mut i: usize = 0;
    proof {
        assert(v@.take(0) =~= Seq::empty());
        assert(out.deep_view() =~= Seq::empty());
    }
    while i < v.len()
        invariant
            i <= v.len(),
            inside == (i > 0 && !text::white(v@[i - 1])),
            !inside ==> word@.len() == 0,
            words_of(v@.take(i as int)) == (if inside {
                out.deep_view().push(word@)
            } else {
                out.deep_view()
            }),
        decreases v.len() - i,
    {
        let ghost front = words_of(v@.take(i as int));
        proof {
            assert(v@.take(i + 1).drop_last() =~= v@.take(i as int));
        }
        if text::is_white(v[i]) {
            if inside {
                let ghost before = out.deep_view();
                let mut full: String = String::new();
                std::mem::swap(&mut full, &mut word);
                out.push(full);
                assert(out.deep_view() =~= before.push(full@));
                inside = false;
            }
        } else {
            let ghost before = word@;
            word.push(v[i]);
            proof {
                if inside {
                    assert(out.deep_view().push(word@) =~= front.drop_last().push(
                        front.last().push(v[i as int]),
                    ));
                } else {
                    assert(before =~= Seq::empty());
                    assert(word@ =~= seq![v[i as int]]);
                }
            }
            inside = true;
        }
        i += 1;
    }
    proof {
        assert(v@.take(i as int) =~= v@);
    }
    if inside {
        let ghost before = out.deep_view();
        out.push(word);
        assert(out.deep_view() =~= before.push(word@));
    }
    out
}

/// A text without the separator is its only piece.
pub proof fn lemma_split_plain(s: Seq<char>, sep: char)
    requires
        !s.contains(sep),
    ensures
        text::split_on(s, sep) == seq![s],
    decreases s.len(),
{
    if s.len() > 0 {
        let l = s.drop_last();
        assert(s[s.len() - 1] != sep);
        if l.contains(sep) {
            let i = choose|i: int| 0 <= i < l.len() && l[i] == sep;
            assert(s[i] == sep);
        }
        lemma_split_plain(l, sep);
        assert(l.push(s.last()) =~= s);
        assert(text::split_on(s, sep) =~= seq![s]);
    } else {
        assert(s =~= Seq::empty());
    }
}

/// The last place of a mark is one where it stands, and it stands nowhere after it; there is none
/// exactly where the mark stands nowhere.
pub proof fn lemma_last_place(s: Seq<char>, mark: Seq<char>)
    ensures
        match last_place(s, mark) {
            Some(i) => text::occurs_at(s, mark, i) && forall|j: int|
                i < j ==> !#[trigger] text::occurs_at(s, mark, j),
            None => forall|j: int| !#[trigger] text::occurs_at(s, mark, j),
        },
    decreases s.len(),
{
    let l = s.drop_last();
    if s.len() >= mark.len() && !text::occurs_at(s, mark, s.len() - mark.len()) && s.len() > 0 {
        lemma_last_place(l, mark);
        assert forall|j: int| 0 <= j && j + mark.len() < s.len() implies #[trigger] text::occurs_at(
            s,
            mark,
            j,
        ) == text::occurs_at(l, mark, j) by {
            assert(s.subrange(j, j + mark.len()) =~= l.subrange(j, j + mark.len()));
        }
        assert forall|j: int| !#[trigger] text::occurs_at(s, mark, j) || j + mark.len()
            < s.len() by {}
        if let Some(i) = last_place(s, mark) {
            assert(text::occurs_at(l, mark, i));
            assert forall|j: int| i < j implies !#[trigger] text::occurs_at(s, mark, j) by {
                if text::occurs_at(s, mark, j) {
                    assert(text::occurs_at(l, mark, j));
                }
            }
        } else {
            assert forall|j: int| !#[trigger] text::occurs_at(s, mark, j) by {
                if text::occurs_at(s, mark, j) {
                    assert(text::occurs_at(l, mark, j));
                }
            }
        }
    }
}

/// A text without white space is its only word.
pub proof fn lemma_words_plain(s: Seq<char>)
    requires
        s.len() > 0,
        forall|i: int| 0 <= i < s.len() ==> !text::white(#[trigger] s[i]),
    ensures
        words_of(s) == seq![s],
    decreases s.len(),
{
    let l = s.drop_last();
    assert(!text::white(s[s.len() - 1]));
    if s.len() > 1 {
        assert(!text::white(s[s.len() - 2]));
        assert forall|i: int| 0 <= i < l.len() implies !text::white(#[trigger] l[i]) by {
            assert(l[i] == s[i]);
        }
        lemma_words_plain(l);
        assert(l.push(s.last()) =~= s);
        assert(words_of(s) =~= seq![s]);
    } else {
        assert(words_of(l) =~= Seq::empty());
        assert(seq![s.last()] =~= s);
        assert(words_of(s) =~= seq![s]);
    }
}

/// White space between two texts separates their words.
pub proof fn lemma_words_joined(a: Seq<char>, c: char, b: Seq<char>)
    requires
        text::white(c),
    ensures
        words_of(a.push(c) + b) == words_of(a) + words_of(b),
    decreases b.len(),
{
    let s = a.push(c) + b;
    if b.len() == 0 {
        assert(s =~= a.push(c));
        assert(s.drop_last() =~= a);
        assert(words_of(a) + words_of(b) =~= words_of(a));
    } else {
        let l = b.drop_last();
        lemma_words_joined(a, c, l);
        assert(s.drop_last() =~= a.push(c) + l);
        assert(s.last() == b.last());
        if !text::white(b.last()) {
            if b.len() == 1 {
                assert(s[s.len() - 2] == c);
                assert(words_of(l) =~= Seq::empty());
                assert(words_of(s) =~= words_of(a) + words_of(b));
            } else {
                assert(s[s.len() - 2] == b[b.len() - 2]);
                if text::white(b[b.len() - 2]) {
                    assert(words_of(s) =~= words_of(a) + words_of(b));
                } else {
                    lemma_last_word(l);
                    assert(words_of(s) =~= words_of(a) + words_of(b));
                }
            }
        }
    }
}

proof fn lemma_last_word(s: Seq<char>)
    requires
        s.len() > 0,
        !text::white(s.last()),
    ensures
        words_of(s).len() > 0,
{
}

/// A text with no white space at either end stays as it is.
pub proof fn lemma_trimmed_plain(s: Seq<char>)
    requires
        s.len() == 0 || (!text::white(s[0]) && !text::white(s.last())),
    ensures
        trimmed(s) == s,
{
    assert(s.skip(0) =~= s);
}

/// The first place of a mark is right behind a text that does not hold its first character.
pub proof fn lemma_halves_at(a: Seq<char>, mark: Seq<char>, b: Seq<char>)
    requires
        mark.len() > 0,
        !a.contains(mark[0]),
    ensures
        halves(a + mark + b, mark) == Some((a, b)),
{
    let s = a + mark + b;
    let n = a.len() as int;
    text::lemma_seek(s, mark, 0);
    assert(s.subrange(n, n + mark.len()) =~= mark);
    assert(text::occurs_at(s, mark, n));
    let i = text::seek(s, mark, 0)->0;
    if i < n {
        assert(s.subrange(i, i + mark.len())[0] == s[i]);
        assert(a[i] == mark[0]);
    }
    assert(i == n);
    assert(s.take(n) =~= a);
    assert(s.skip(n + mark.len()) =~= b);
}

/// A mark stands nowhere in a text that does not hold its first character.
pub proof fn lemma_no_mark(s: Seq<char>, mark: Seq<char>)
    requires
        mark.len() > 0,
        !s.contains(mark[0]),
    ensures
        halves(s, mark) is None,
        before_mark(s, mark) == s,
        !text::occurs(s, mark),
{
    text::lemma_seek(s, mark, 0);
    assert forall|i: int| !text::occurs_at(s, mark, i) by {
        if text::occurs_at(s, mark, i) {
            assert(s.subrange(i, i + mark.len())[0] == s[i]);
        }
    }
}

/// A run ends at the first character that is not of the kind.
pub proof fn lemma_run_end_at(s: Seq<char>, from: int, n: int, k: Class)
    requires
        0 <= from <= n <= s.len(),
        forall|i: int| from <= i < n ==> in_class(k, #[trigger] s[i]),
        n == s.len() || !in_class(k, s[n]),
    ensures
        run_end(s, from, k) == n,
    decreases n - from,
{
    if from < n {
        assert(in_class(k, s[from]));
        lemma_run_end_at(s, from + 1, n, k);
    }
}

} // verus!
