use crate::text::chars_of;
use vstd::prelude::*;
use vstd::std_specs::cmp::PartialEqSpecImpl;

verus! {

/// One unit of a key template: a character that stands for itself, or a
/// placeholder that stands for a run of letters and digits.
#[derive(Clone, Copy, Debug)]
pub enum Segment {
    Literal(char),
    Placeholder,
}

/// The characters a placeholder accepts: ASCII letters and digits.
pub open spec fn is_alnum(c: char) -> bool {
    ('a' <= c && c <= 'z') || ('A' <= c && c <= 'Z') || ('0' <= c && c <= '9')
}

/// Every character of `key` from `from` up to, not including, `to` is a letter or digit.
pub open spec fn alnum_between(key: Seq<char>, from: int, to: int) -> bool {
    forall|t: int| from <= t < to ==> is_alnum(#[trigger] key[t])
}

/// The segments of a template, read from the left: each `{}` is a placeholder,
/// every other character is a literal. A brace that is not part of a `{}` pair
/// is a literal like any other character.
pub open spec fn segments(template: Seq<char>) -> Seq<Segment> {
    segments_from(template, 0)
}

/// The segments of the part of a template that starts at position `i`.
pub open spec fn segments_from(template: Seq<char>, i: int) -> Seq<Segment>
    decreases template.len() - i,
{
    if i < 0 || i >= template.len() {
        Seq::empty()
    } else if i + 1 < template.len() && template[i] == '{' && template[i + 1] == '}' {
        seq![Segment::Placeholder] + segments_from(template, i + 2)
    } else {
        seq![Segment::Literal(template[i])] + segments_from(template, i + 1)
    }
}

/// The piece `key[from..to]` is what `seg` stands for: the literal itself, or a
/// non-empty run of letters and digits.
pub open spec fn piece_fits(seg: Segment, key: Seq<char>, from: int, to: int) -> bool {
    match seg {
        Segment::Literal(c) => to == from + 1 && 0 <= from < key.len() && key[from] == c,
        Segment::Placeholder => 0 <= from < to <= key.len() && alnum_between(key, from, to),
    }
}

/// `cuts` splits the whole of `key` into consecutive pieces, one for each
/// segment, each piece fitting its segment.
pub open spec fn decomposes(segs: Seq<Segment>, key: Seq<char>, cuts: Seq<int>) -> bool {
    &&& cuts.len() == segs.len() + 1
    &&& cuts[0] == 0
    &&& cuts[segs.len() as int] == key.len()
    &&& forall|i: int|
        0 <= i < segs.len() ==> piece_fits(#[trigger] segs[i], key, cuts[i], cuts[i + 1])
}

/// A key matches a sequence of segments when some split of the whole key fits them.
pub open spec fn segments_match(segs: Seq<Segment>, key: Seq<char>) -> bool {
    exists|cuts: Seq<int>| decomposes(segs, key, cuts)
}

/// A key matches a template when it matches the template's segments.
pub open spec fn template_matches(template: Seq<char>, key: Seq<char>) -> bool {
    segments_match(segments(template), key)
}

/// The same relation, told one character at a time: the first `k` segments
/// fit the first `j` characters of the key. A literal takes one character,
/// which is that literal; a placeholder takes one letter or digit and either
/// is done or takes more.
pub open spec fn reaches(segs: Seq<Segment>, key: Seq<char>, k: int, j: int) -> bool
    decreases k, j,
{
    if k <= 0 {
        j == 0
    } else if j <= 0 {
        false
    } else {
        match segs[k - 1] {
            Segment::Literal(c) => key[j - 1] == c && reaches(segs, key, k - 1, j - 1),
            Segment::Placeholder => is_alnum(key[j - 1]) && (reaches(segs, key, k - 1, j - 1)
                || reaches(segs, key, k, j - 1)),
        }
    }
}

/// The cuts of a split never go backwards.
proof fn lemma_cuts_ordered(segs: Seq<Segment>, key: Seq<char>, cuts: Seq<int>, i: int, j: int)
    requires
        decomposes(segs, key, cuts),
        0 <= i <= j <= segs.len(),
    ensures
        0 <= cuts[i] <= cuts[j] <= key.len(),
    decreases j - i, segs.len() - j,
{
    if i < j {
        assert(piece_fits(segs[j - 1], key, cuts[j - 1], cuts[j - 1 + 1]));
        lemma_cuts_ordered(segs, key, cuts, i, j - 1);
    } else if j < segs.len() {
        assert(piece_fits(segs[j], key, cuts[j], cuts[j + 1]));
        lemma_cuts_ordered(segs, key, cuts, j + 1, j + 1);
    } else {
        if segs.len() > 0 {
            assert(piece_fits(segs[j - 1], key, cuts[j - 1], cuts[j - 1 + 1]));
        }
    }
}

/// A split of a prefix of the key, followed by one more fitting piece that ends
/// the key, is a split of the key.
proof fn lemma_split_extends(
    init: Seq<Segment>,
    seg: Segment,
    key: Seq<char>,
    m: int,
    cuts: Seq<int>,
)
    requires
        0 <= m <= key.len(),
        decomposes(init, key.take(m), cuts),
        piece_fits(seg, key, m, key.len() as int),
    ensures
        decomposes(init.push(seg), key, cuts.push(key.len() as int)),
{
    let segs = init.push(seg);
    let all = cuts.push(key.len() as int);
    let prefix = key.take(m);
    assert forall|i: int| 0 <= i < segs.len() implies piece_fits(
        #[trigger] segs[i],
        key,
        all[i],
        all[i + 1],
    ) by {
        if i < init.len() {
            lemma_cuts_ordered(init, prefix, cuts, i, i + 1);
            assert(piece_fits(init[i], prefix, cuts[i], cuts[i + 1]));
            assert(forall|t: int| cuts[i] <= t < cuts[i + 1] ==> prefix[t] == key[t]);
        }
    }
}

/// A split of the key for at least one segment ends in a piece that fits the
/// last segment, after a split of the rest of the key for the other segments.
proof fn lemma_split_shrinks(segs: Seq<Segment>, key: Seq<char>, cuts: Seq<int>)
    requires
        segs.len() > 0,
        decomposes(segs, key, cuts),
    ensures
        0 <= cuts[segs.len() - 1] <= key.len(),
        decomposes(segs.drop_last(), key.take(cuts[segs.len() - 1]), cuts.drop_last()),
        piece_fits(segs.last(), key, cuts[segs.len() - 1], key.len() as int),
{
    let init = segs.drop_last();
    let m = cuts[segs.len() - 1];
    let prefix = key.take(m);
    let rest = cuts.drop_last();
    lemma_cuts_ordered(segs, key, cuts, segs.len() - 1, segs.len() as int);
    assert(piece_fits(segs[segs.len() - 1], key, cuts[segs.len() - 1], cuts[segs.len() - 1 + 1]));
    assert forall|i: int| 0 <= i < init.len() implies piece_fits(
        #[trigger] init[i],
        prefix,
        rest[i],
        rest[i + 1],
    ) by {
        lemma_cuts_ordered(segs, key, cuts, i + 1, segs.len() - 1);
        lemma_cuts_ordered(segs, key, cuts, i, i + 1);
        assert(piece_fits(segs[i], key, cuts[i], cuts[i + 1]));
        assert(forall|t: int| cuts[i] <= t < cuts[i + 1] ==> prefix[t] == key[t]);
    }
}

/// Told one character at a time or as a split of the key, the relation is
/// the same: the first `k` segments reach position `j` exactly when some split
/// of the first `j` characters fits them.
pub proof fn lemma_reaches_iff_split(segs: Seq<Segment>, key: Seq<char>, k: int, j: int)
    requires
        0 <= k <= segs.len(),
        0 <= j <= key.len(),
    ensures
        reaches(segs, key, k, j) <==> segments_match(segs.take(k), key.take(j)),
    decreases k, j,
{
    let front = segs.take(k);
    let part = key.take(j);
    if k == 0 {
        if j == 0 {
            assert(decomposes(front, part, seq![0int]));
        }
        if segments_match(front, part) {
            let cuts = choose|cuts: Seq<int>| decomposes(front, part, cuts);
            assert(part.len() == 0);
        }
    } else {
        let init = segs.take(k - 1);
        let last = segs[k - 1];
        assert(init.push(last) == front);
        assert(front.drop_last() == init);
        if j > 0 {
            lemma_reaches_iff_split(segs, key, k - 1, j - 1);
            lemma_reaches_iff_split(segs, key, k, j - 1);
            assert(part.take(j - 1) == key.take(j - 1));
            assert(part[j - 1] == key[j - 1]);
        }
        if reaches(segs, key, k, j) {
            let shorter = key.take(j - 1);
            if reaches(segs, key, k - 1, j - 1) {
                let cuts = choose|cuts: Seq<int>| decomposes(init, shorter, cuts);
                lemma_split_extends(init, last, part, j - 1, cuts);
            } else {
                let cuts = choose|cuts: Seq<int>| decomposes(front, shorter, cuts);
                lemma_split_shrinks(front, shorter, cuts);
                let m = cuts[k - 1];
                assert(shorter.take(m) == part.take(m));
                assert(alnum_between(part, m, j)) by {
                    assert forall|t: int| m <= t < j implies is_alnum(#[trigger] part[t]) by {
                        if t < j - 1 {
                            assert(part[t] == shorter[t]);
                        }
                    }
                }
                lemma_split_extends(init, last, part, m, cuts.drop_last());
            }
        }
        if segments_match(front, part) {
            let cuts = choose|cuts: Seq<int>| decomposes(front, part, cuts);
            lemma_split_shrinks(front, part, cuts);
            let m = cuts[k - 1];
            assert(j > 0);
            let shorter = key.take(j - 1);
            if m == j - 1 {
                assert(decomposes(init, shorter, cuts.drop_last()));
            } else {
                assert(shorter.take(m) == part.take(m));
                assert(alnum_between(shorter, m, j - 1)) by {
                    assert forall|t: int| m <= t < j - 1 implies is_alnum(
                        #[trigger] shorter[t],
                    ) by {
                        assert(part[t] == shorter[t]);
                    }
                }
                lemma_split_extends(init, last, shorter, m, cuts.drop_last());
                assert(is_alnum(part[j - 1]));
            }
        }
    }
}

/// A key matches a template exactly when the template's segments, all of
/// them, reach the end of the key.
pub proof fn lemma_matches_by_steps(template: Seq<char>, key: Seq<char>)
    ensures
        template_matches(template, key) <==> reaches(
            segments(template),
            key,
            segments(template).len() as int,
            key.len() as int,
        ),
{
    let segs = segments(template);
    lemma_reaches_iff_split(segs, key, segs.len() as int, key.len() as int);
    assert(segs.take(segs.len() as int) == segs);
    assert(key.take(key.len() as int) == key);
}

/// Every piece of a split holds at least one character: a key that matches
/// is at least as long as the number of segments. Two placeholders side by
/// side need two characters between them.
pub proof fn lemma_match_needs_length(segs: Seq<Segment>, key: Seq<char>)
    requires
        segments_match(segs, key),
    ensures
        key.len() >= segs.len(),
{
    let cuts = choose|cuts: Seq<int>| decomposes(segs, key, cuts);
    lemma_cuts_spread(segs, key, cuts, segs.len() as int);
}

/// Cut `i` of a split lies at or after position `i`.
proof fn lemma_cuts_spread(segs: Seq<Segment>, key: Seq<char>, cuts: Seq<int>, i: int)
    requires
        decomposes(segs, key, cuts),
        0 <= i <= segs.len(),
    ensures
        cuts[i] >= i,
    decreases i,
{
    if i > 0 {
        lemma_cuts_spread(segs, key, cuts, i - 1);
        assert(piece_fits(segs[i - 1], key, cuts[i - 1], cuts[i - 1 + 1]));
    }
}

/// The template holds no `{}`.
pub open spec fn is_plain(template: Seq<char>) -> bool {
    forall|i: int|
        0 <= i && i + 1 < template.len() ==> !(#[trigger] template[i] == '{' && template[i + 1]
            == '}')
}

/// The segments of a template without `{}` are its characters, as literals.
proof fn lemma_plain_segments(template: Seq<char>, i: int)
    requires
        is_plain(template),
        0 <= i <= template.len(),
    ensures
        segments_from(template, i).len() == template.len() - i,
        forall|j: int|
            0 <= j < template.len() - i ==> #[trigger] segments_from(template, i)[j]
                == Segment::Literal(template[i + j]),
    decreases template.len() - i,
{
    if i < template.len() {
        lemma_plain_segments(template, i + 1);
        lemma_char_range(template[i]);
        let rest = segments_from(template, i + 1);
        assert(segments_from(template, i) == seq![Segment::Literal(template[i])] + rest);
        assert forall|j: int| 0 <= j < template.len() - i implies #[trigger] segments_from(
            template,
            i,
        )[j] == Segment::Literal(template[i + j]) by {
            if j > 0 {
                assert(rest[j - 1] == Segment::Literal(template[i + 1 + (j - 1)]));
            }
        }
    }
}

/// Where every segment is a literal, cut `i` of a split lies at position `i`.
proof fn lemma_literal_cuts(segs: Seq<Segment>, key: Seq<char>, cuts: Seq<int>, i: int)
    requires
        decomposes(segs, key, cuts),
        forall|j: int| 0 <= j < segs.len() ==> #[trigger] segs[j] is Literal,
        0 <= i <= segs.len(),
    ensures
        cuts[i] == i,
    decreases i,
{
    if i > 0 {
        lemma_literal_cuts(segs, key, cuts, i - 1);
        assert(segs[i - 1] is Literal);
        assert(piece_fits(segs[i - 1], key, cuts[i - 1], cuts[i - 1 + 1]));
    }
}

/// Literal text is taken literally: a template without `{}` matches itself
/// and no other key, whatever characters it holds.
pub proof fn lemma_plain_template(template: Seq<char>, key: Seq<char>)
    requires
        is_plain(template),
    ensures
        template_matches(template, key) <==> key == template,
{
    let segs = segments(template);
    lemma_plain_segments(template, 0);
    if template_matches(template, key) {
        let cuts = choose|cuts: Seq<int>| decomposes(segs, key, cuts);
        lemma_literal_cuts(segs, key, cuts, segs.len() as int);
        assert forall|i: int| 0 <= i < key.len() implies key[i] == template[i] by {
            lemma_literal_cuts(segs, key, cuts, i);
            lemma_literal_cuts(segs, key, cuts, i + 1);
            assert(segs[i] == Segment::Literal(template[0 + i]));
            assert(piece_fits(segs[i], key, cuts[i], cuts[i + 1]));
        }
        assert(key =~= template);
    }
    if key == template {
        let cuts = Seq::new(template.len() + 1, |i: int| i);
        assert forall|i: int| 0 <= i < segs.len() implies piece_fits(
            #[trigger] segs[i],
            key,
            cuts[i],
            cuts[i + 1],
        ) by {
            assert(segs[i] == Segment::Literal(template[0 + i]));
        }
        assert(decomposes(segs, key, cuts));
    }
}

/// Whether `c` is an ASCII letter or digit.
pub fn char_is_alnum(c: char) -> (r: bool)
    ensures
        r == is_alnum(c),
{
    ('a' <= c && c <= 'z') || ('A' <= c && c <= 'Z') || ('0' <= c && c <= '9')
}

/// Appending after a push is appending the pushed element first.
proof fn lemma_push_then_append<A>(done: Seq<A>, x: A, tail: Seq<A>)
    ensures
        done.push(x) + tail == done + (seq![x] + tail),
{
    assert(done.push(x) + tail =~= done + (seq![x] + tail));
}

/// Every character lies in the range of Unicode scalar values.
proof fn lemma_char_range(c: char)
    ensures
        0 <= c as int <= 0xD7FF || 0xE000 <= c as int <= 0x10FFFF,
{
}

/// Reading one segment off a template at position `i`.
proof fn lemma_segments_step(done: Seq<Segment>, template: Seq<char>, i: int)
    requires
        0 <= i < template.len(),
    ensures
        i + 1 < template.len() && template[i] == '{' && template[i + 1] == '}' ==> done.push(
            Segment::Placeholder,
        ) + segments_from(template, i + 2) == done + segments_from(template, i),
        !(i + 1 < template.len() && template[i] == '{' && template[i + 1] == '}') ==> done.push(
            Segment::Literal(template[i]),
        ) + segments_from(template, i + 1) == done + segments_from(template, i),
{
    lemma_char_range(template[i]);
    if i + 1 < template.len() && template[i] == '{' && template[i + 1] == '}' {
        lemma_push_then_append(done, Segment::Placeholder, segments_from(template, i + 2));
    } else {
        lemma_push_then_append(done, Segment::Literal(template[i]), segments_from(template, i + 1));
    }
}

/// Reads a template into its segments.
pub fn compile(template: &str) -> (out: Vec<Segment>)
    ensures
        out@ == segments(template@),
{
    let t = chars_of(template);
    let mut out: Vec<Segment> = Vec::new();
    let mut i: usize = 0;
    assert(out@ + segments_from(t@, 0) == segments(t@));
    while i < t.len()
        invariant
            i <= t.len(),
            out@ + segments_from(t@, i as int) == segments(t@),
        decreases t.len() - i,
    {
        proof {
            lemma_segments_step(out@, t@, i as int);
        }
        if t[i] == '{' && i + 1 < t.len() && t[i + 1] == '}' {
            out.push(Segment::Placeholder);
            i += 2;
        } else {
            out.push(Segment::Literal(t[i]));
            i += 1;
        }
    }
    assert(out@ + Seq::<Segment>::empty() == out@);
    out
}

/// The positions reachable after one more literal: one character on from each
/// reachable position where that character is `c`.
fn after_literal(reach: &Vec<bool>, key: &Vec<char>, c: char) -> (next: Vec<bool>)
    requires
        reach.len() == key.len() + 1,
    ensures
        next.len() == reach.len(),
        !next[0],
        forall|j: int| 0 <= j < key.len() ==> #[trigger] next[j + 1] == (reach[j] && key[j] == c),
{
    let mut next: Vec<bool> = Vec::new();
    next.push(false);
    let mut i: usize = 0;
    while i < key.len()
        invariant
            reach.len() == key.len() + 1,
            i <= key.len(),
            next.len() == i + 1,
            !next[0],
            forall|j: int| 0 <= j < i ==> #[trigger] next[j + 1] == (reach[j] && key[j] == c),
        decreases key.len() - i,
    {
        next.push(reach[i] && key[i] == c);
        i += 1;
    }
    next
}

/// The positions reachable after one more placeholder: wherever a run of
/// letters and digits ends that began at a reachable position.
fn after_placeholder(reach: &Vec<bool>, key: &Vec<char>) -> (next: Vec<bool>)
    requires
        reach.len() == key.len() + 1,
    ensures
        next.len() == reach.len(),
        !next[0],
        forall|j: int|
            0 <= j < key.len() ==> #[trigger] next[j + 1] == (is_alnum(key[j]) && (reach[j]
                || next[j])),
{
    let mut next: Vec<bool> = Vec::new();
    next.push(false);
    let mut i: usize = 0;
    while i < key.len()
        invariant
            reach.len() == key.len() + 1,
            i <= key.len(),
            next.len() == i + 1,
            !next[0],
            forall|j: int|
                0 <= j < i ==> #[trigger] next[j + 1] == (is_alnum(key[j]) && (reach[j]
                    || next[j])),
        decreases key.len() - i,
    {
        let b = char_is_alnum(key[i]) && (reach[i] || next[i]);
        next.push(b);
        i += 1;
    }
    next
}

/// Decides whether the segments, all of them, reach the end of the key, in
/// time proportional to the number of segments times the length of the key.
pub fn segments_fit(segs: &Vec<Segment>, key: &Vec<char>) -> (r: bool)
    ensures
        r == reaches(segs@, key@, segs.len() as int, key.len() as int),
{
    let n = key.len();
    let mut reach: Vec<bool> = Vec::new();
    reach.push(true);
    let mut j: usize = 0;
    while j < n
        invariant
            n == key.len(),
            j <= n,
            reach.len() == j + 1,
            reach[0],
            forall|t: int| 1 <= t <= j ==> !reach[t],
        decreases n - j,
    {
        reach.push(false);
        j += 1;
    }
    let mut k: usize = 0;
    while k < segs.len()
        invariant
            n == key.len(),
            k <= segs.len(),
            reach.len() == n + 1,
            forall|t: int| 0 <= t <= n ==> reach[t] == reaches(segs@, key@, k as int, t),
        decreases segs.len() - k,
    {
        let next = match segs[k] {
            Segment::Literal(c) => after_literal(&reach, key, c),
            Segment::Placeholder => after_placeholder(&reach, key),
        };
        assert forall|t: int| 0 <= t <= n implies next[t] == reaches(segs@, key@, k + 1, t) by {
            lemma_step_marked(segs@, key@, k as int, reach@, next@, t);
        }
        reach = next;
        k += 1;
    }
    reach[n]
}

/// The recurrence that `after_literal` and `after_placeholder` compute is
/// that of `reaches`.
proof fn lemma_step_marked(
    segs: Seq<Segment>,
    key: Seq<char>,
    k: int,
    reach: Seq<bool>,
    next: Seq<bool>,
    j: int,
)
    requires
        0 <= k < segs.len(),
        0 <= j <= key.len(),
        reach.len() == key.len() + 1,
        next.len() == key.len() + 1,
        forall|t: int| 0 <= t <= key.len() ==> reach[t] == reaches(segs, key, k, t),
        !next[0],
        match segs[k] {
            Segment::Literal(c) => forall|t: int|
                0 <= t < key.len() ==> #[trigger] next[t + 1] == (reach[t] && key[t] == c),
            Segment::Placeholder => forall|t: int|
                0 <= t < key.len() ==> #[trigger] next[t + 1] == (is_alnum(key[t]) && (reach[t]
                    || next[t])),
        },
    ensures
        next[j] == reaches(segs, key, k + 1, j),
    decreases j,
{
    if j > 0 {
        lemma_step_marked(segs, key, k, reach, next, j - 1);
        assert(next[j - 1 + 1] == next[j]);
        assert(reach[j - 1] == reaches(segs, key, k, j - 1));
    }
}

/// A key template: literal text in which each `{}` stands for one or more
/// letters or digits. Two patterns are equal when their templates are the same
/// text, whatever keys they match.
#[derive(Debug)]
pub struct KeyPattern(pub String);

impl View for KeyPattern {
    type V = Seq<char>;

    open spec fn view(&self) -> Seq<char> {
        self.0@
    }
}

impl Clone for KeyPattern {
    fn clone(&self) -> (r: Self)
        ensures
            r == *self,
    {
        KeyPattern(self.0.clone())
    }
}

impl PartialEq for KeyPattern {
    fn eq(&self, other: &Self) -> (r: bool) {
        self.0 == other.0
    }
}

impl Eq for KeyPattern {

}

impl PartialEqSpecImpl for KeyPattern {
    open spec fn obeys_eq_spec() -> bool {
        true
    }

    open spec fn eq_spec(&self, other: &Self) -> bool {
        self@ == other@
    }
}

impl KeyPattern {
    /// Wraps a template. Nothing is checked: any text is a template.
    pub fn new(input: String) -> (p: Self)
        ensures
            p.0 == input,
    {
        Self(input)
    }

    /// The keys this pattern matches: those that split, from end to end, into
    /// one piece for each segment of the template. `lemma_matches_by_steps`
    /// tells the same one character at a time.
    pub open spec fn matches(&self, key: Seq<char>) -> bool {
        template_matches(self@, key)
    }

    /// Whether the whole of `key` matches the template.
    pub fn match_key(&self, key: &str) -> (r: bool)
        ensures
            r == self.matches(key@),
    {
        let text = chars_of(key);
        self.match_chars(&text)
    }

    /// Whether the whole of a key, given as its characters, matches the template.
    pub fn match_chars(&self, key: &Vec<char>) -> (r: bool)
        ensures
            r == self.matches(key@),
    {
        let segs = compile(self.0.as_str());
        proof {
            lemma_matches_by_steps(self@, key@);
        }
        segments_fit(&segs, key)
    }
}

} // verus!
