//! The path language of JSON queries and updates.
//!
//! A path is split at every `.`; its first part must be `$`, the document
//! itself. Each later part is one step:
//! - a part that ends with `]` is an element step `field[index]`: the text
//!   before the first `[` names a member, and the text after it, without its
//!   trailing `]` characters, is `*` (every element) or a decimal index;
//! - any other part names a member (in a query, the part `*` stands for every
//!   member of an object and every element of an array).

use vstd::prelude::*;
use crate::text::{chars_of, decimal_text, digit_char};
use crate::json_value::{
    JsonValue, JsonView, JsonMap, lookup, map_insert, lemma_array_view, array_view,
    lemma_map_insert_after_take, lemma_lookup_map_insert,
};

verus! {

broadcast use lemma_array_view;

/// What an element step selects.
#[derive(Debug, Clone, Copy, PartialEq, Eq)]
pub enum IndexSel {
    /// `[*]`: every element.
    All,
    /// `[n]`: the element at position `n`.
    At(usize),
    /// Neither `*` nor a decimal index.
    Invalid,
}

/// One step of a path, as the library holds it.
#[derive(Debug)]
pub enum Segment {
    /// A member name.
    Key(String),
    /// A member name and an element selection.
    Elem(String, IndexSel),
    /// A part that ends with `]` but holds no `[`.
    Unbracketed,
}

/// One step of a path, mathematically.
pub enum PathStep {
    Key(Seq<char>),
    Elem(Seq<char>, IndexSel),
    Unbracketed,
}

impl View for Segment {
    type V = PathStep;

    open spec fn view(&self) -> PathStep {
        match self {
            Segment::Key(k) => PathStep::Key(k@),
            Segment::Elem(f, sel) => PathStep::Elem(f@, *sel),
            Segment::Unbracketed => PathStep::Unbracketed,
        }
    }
}

/// The parts of `s` between occurrences of `sep` (there is always at least one).
pub open spec fn split_on(s: Seq<char>, sep: char) -> Seq<Seq<char>>
    decreases s.len(),
{
    if s.len() == 0 {
        seq![Seq::empty()]
    } else {
        let init = split_on(s.drop_last(), sep);
        if s.last() == sep {
            init.push(Seq::empty())
        } else {
            init.update(init.len() - 1, init.last().push(s.last()))
        }
    }
}

/// Position of the first occurrence of `c` in `s`.
pub open spec fn first_index_of(s: Seq<char>, c: char) -> Option<int>
    decreases s.len(),
{
    if s.len() == 0 {
        None
    } else if s[0] == c {
        Some(0)
    } else {
        match first_index_of(s.drop_first(), c) {
            Some(i) => Some(i + 1),
            None => None,
        }
    }
}

/// `s` without its trailing `]` characters.
pub open spec fn trim_closing(s: Seq<char>) -> Seq<char>
    decreases s.len(),
{
    if s.len() > 0 && s.last() == ']' {
        trim_closing(s.drop_last())
    } else {
        s
    }
}

/// `c` is one of the ASCII digits.
pub open spec fn is_digit(c: char) -> bool {
    '0' <= c && c <= '9'
}

/// The number that the decimal digits `d` spell.
pub open spec fn decimal_value(d: Seq<char>) -> int
    decreases d.len(),
{
    if d.len() == 0 {
        0
    } else {
        decimal_value(d.drop_last()) * 10 + (d.last() as int - '0' as int)
    }
}

/// An unsigned machine integer written in decimal: an optional `+`, then at
/// least one digit, of a value that fits.
pub open spec fn parse_usize(s: Seq<char>) -> Option<usize> {
    let d = unsigned_digits(s);
    if d.len() > 0 && all_digits(d) && decimal_value(d) <= usize::MAX {
        Some(decimal_value(d) as usize)
    } else {
        None
    }
}

/// A numeral without its optional leading `+`.
pub open spec fn unsigned_digits(s: Seq<char>) -> Seq<char> {
    if s.len() > 0 && s[0] == '+' {
        s.drop_first()
    } else {
        s
    }
}

/// Every character of `d` is a digit.
pub open spec fn all_digits(d: Seq<char>) -> bool {
    forall|i: int| 0 <= i < d.len() ==> is_digit(#[trigger] d[i])
}

/// The step that one part of a path denotes.
pub open spec fn parse_step(part: Seq<char>) -> PathStep {
    if part.len() > 0 && part.last() == ']' {
        match first_index_of(part, '[') {
            None => PathStep::Unbracketed,
            Some(k) => {
                let index = trim_closing(part.skip(k + 1));
                PathStep::Elem(
                    part.take(k),
                    if index == seq!['*'] {
                        IndexSel::All
                    } else {
                        match parse_usize(index) {
                            Some(n) => IndexSel::At(n),
                            None => IndexSel::Invalid,
                        }
                    },
                )
            },
        }
    } else {
        PathStep::Key(part)
    }
}

/// The parts of a path.
pub open spec fn path_parts(path: Seq<char>) -> Seq<Seq<char>> {
    split_on(path, '.')
}

/// The path starts at the document: its first part is `$`.
pub open spec fn path_rooted(path: Seq<char>) -> bool {
    path_parts(path)[0] == seq!['$']
}

/// The steps of a path: its parts after the first.
pub open spec fn path_steps(path: Seq<char>) -> Seq<PathStep> {
    path_parts(path).skip(1).map_values(|part: Seq<char>| parse_step(part))
}

/// The views of a sequence of segments.
pub open spec fn segment_views(s: Seq<Segment>) -> Seq<PathStep> {
    s.map_values(|g: Segment| g@)
}

/// `split_on` always yields at least one part.
pub broadcast proof fn lemma_split_on_nonempty(s: Seq<char>, sep: char)
    ensures
        #[trigger] split_on(s, sep).len() >= 1,
    decreases s.len(),
{
    if s.len() > 0 {
        lemma_split_on_nonempty(s.drop_last(), sep);
    }
}

/// `first_index_of` finds the first position holding `c`.
proof fn lemma_first_index_of(s: Seq<char>, c: char, k: int)
    requires
        0 <= k <= s.len(),
        forall|j: int| 0 <= j < k ==> s[j] != c,
    ensures
        k < s.len() && s[k] == c ==> first_index_of(s, c) == Some(k),
        k == s.len() ==> first_index_of(s, c) is None,
    decreases k,
{
    if k > 0 {
        lemma_first_index_of(s.drop_first(), c, k - 1);
    } else if s.len() > 0 {
    }
}

/// Digits only: the decimal value is at least that of any prefix.
proof fn lemma_decimal_value_grows(d: Seq<char>, k: int)
    requires
        0 <= k <= d.len(),
        forall|i: int| 0 <= i < d.len() ==> is_digit(#[trigger] d[i]),
    ensures
        decimal_value(d.take(k)) <= decimal_value(d),
        0 <= decimal_value(d),
    decreases d.len(),
{
    if d.len() > 0 {
        let init = d.drop_last();
        if k < d.len() {
            lemma_decimal_value_grows(init, k);
            assert(init.take(k) =~= d.take(k));
        } else {
            lemma_decimal_value_grows(init, 0);
            assert(d.take(k) =~= d);
        }
    } else {
        assert(d.take(k) =~= d);
    }
}

/// The decimal numeral of `n` reads back as `n`: it is a nonempty run of
/// digits, without a leading zero unless it is `0`, whose base-ten value is
/// `n`; and an index written this way parses to `n`.
pub proof fn lemma_decimal_text_reads_back(n: nat)
    ensures
        decimal_text(n).len() > 0,
        all_digits(decimal_text(n)),
        n >= 10 ==> decimal_text(n)[0] != '0',
        decimal_value(decimal_text(n)) == n,
        n <= usize::MAX ==> parse_usize(decimal_text(n)) == Some(n as usize),
    decreases n,
{
    let t = decimal_text(n);
    if n < 10 {
        assert(t.drop_last() =~= Seq::<char>::empty());
        assert(decimal_value(Seq::<char>::empty()) == 0);
        assert(t.last() == digit_char(n));
        assert(digit_char(n) as int == n + '0' as int);
        assert(decimal_value(t) == decimal_value(t.drop_last()) * 10 + (t.last() as int - '0' as int));
    } else {
        lemma_decimal_text_reads_back(n / 10);
        let init = decimal_text(n / 10);
        assert(t.drop_last() =~= init);
        assert(t.last() == digit_char(n % 10));
        assert(digit_char(n % 10) as int == n % 10 + '0' as int);
        assert(decimal_value(t) == decimal_value(init) * 10 + (n % 10));
        assert((n / 10) * 10 + n % 10 == n);
        assert(t[0] == init[0]);
        assert forall|i: int| 0 <= i < t.len() implies is_digit(#[trigger] t[i]) by {
            if i < init.len() {
                assert(t[i] == init[i]);
                assert(is_digit(init[i]));
            }
        }
        if n / 10 < 10 {
            assert(init[0] != '0');
        }
    }
    assert(is_digit(t[0]));
    assert(unsigned_digits(t) == t);
}

/// `s`, then `]`, without its trailing `]` characters, is `s` when `s` ends
/// with a digit.
proof fn lemma_trim_closing_digits(s: Seq<char>)
    requires
        s.len() > 0,
        is_digit(s.last()),
    ensures
        trim_closing(s.push(']')) == s,
{
    assert(s.push(']').drop_last() =~= s);
    assert(s.last() != ']');
    assert(trim_closing(s) == s);
    assert(s.push(']').last() == ']');
}

/// An element step written with the decimal numeral of `n` selects position
/// `n` of the array in member `field` (a name holding no `[`).
pub proof fn lemma_element_step_position(field: Seq<char>, n: usize)
    requires
        forall|j: int| 0 <= j < field.len() ==> field[j] != '[',
    ensures
        parse_step(field + seq!['['] + decimal_text(n as nat) + seq![']']) == PathStep::Elem(
            field,
            IndexSel::At(n),
        ),
{
    let digits = decimal_text(n as nat);
    lemma_decimal_text_reads_back(n as nat);
    let part = field + seq!['['] + digits + seq![']'];
    let k = field.len() as int;
    assert forall|j: int| 0 <= j < k implies part[j] != '[' by {
        assert(part[j] == field[j]);
    }
    assert(part[k] == '[');
    lemma_first_index_of(part, '[', k);
    assert(part.take(k) =~= field);
    assert(part.skip(k + 1) =~= digits.push(']'));
    assert(is_digit(digits[digits.len() - 1]));
    lemma_trim_closing_digits(digits);
    assert(is_digit(digits[0]));
    assert(digits != seq!['*']);
    assert(part.len() > 0 && part.last() == ']');
}

/// Splits the characters of a path into its parts, as (start, end) positions.
fn part_bounds(chars: &Vec<char>) -> (bounds: Vec<(usize, usize)>)
    ensures
        bounds@.len() == split_on(chars@, '.').len(),
        forall|i: int|
            #![trigger bounds@[i]]
            0 <= i < bounds@.len() ==> bounds@[i].0 <= bounds@[i].1 <= chars@.len()
                && chars@.subrange(bounds@[i].0 as int, bounds@[i].1 as int) == split_on(
                chars@,
                '.',
            )[i],
{
    let n = chars.len();
    let mut bounds: Vec<(usize, usize)> = Vec::new();
    let ghost mut parts: Seq<Seq<char>> = Seq::empty();
    let mut start: usize = 0;
    let mut i: usize = 0;
    assert(chars@.take(0) =~= Seq::<char>::empty());
    assert(split_on(chars@.take(0), '.') =~= parts.push(chars@.subrange(0, 0)));
    while i < n
        invariant
            n == chars@.len(),
            start <= i <= n,
            split_on(chars@.take(i as int), '.') == parts.push(chars@.subrange(start as int, i as int)),
            parts.len() == bounds@.len(),
            forall|k: int|
                #![trigger bounds@[k]]
                0 <= k < bounds@.len() ==> bounds@[k].0 <= bounds@[k].1 <= start
                    && chars@.subrange(bounds@[k].0 as int, bounds@[k].1 as int) == parts[k],
        decreases n - i,
    {
        let ghost prev = split_on(chars@.take(i as int), '.');
        let ghost t = chars@.take(i + 1);
        assert(t.drop_last() =~= chars@.take(i as int));
        assert(t.last() == chars@[i as int]);
        assert(split_on(t, '.') == if t.last() == '.' {
            prev.push(Seq::empty())
        } else {
            prev.update(prev.len() - 1, prev.last().push(t.last()))
        });
        if chars[i] == '.' {
            proof {
                parts = parts.push(chars@.subrange(start as int, i as int));
                assert(chars@.subrange(i + 1, i + 1) =~= Seq::<char>::empty());
            }
            bounds.push((start, i));
            start = i + 1;
        } else {
            assert(chars@.subrange(start as int, i as int).push(chars@[i as int]) =~= chars@.subrange(
                start as int,
                i + 1,
            ));
        }
        i = i + 1;
    }
    bounds.push((start, n));
    assert(chars@.take(n as int) =~= chars@);
    assert(split_on(chars@, '.') =~= parts.push(chars@.subrange(start as int, n as int)));
    bounds
}

/// The value of the decimal numeral between `from` and `to` in `chars`.
fn parse_index(chars: &Vec<char>, from: usize, to: usize) -> (n: Option<usize>)
    requires
        from <= to <= chars@.len(),
    ensures
        n == parse_usize(chars@.subrange(from as int, to as int)),
{
    let ghost s = chars@.subrange(from as int, to as int);
    let mut start = from;
    if from < to && chars[from] == '+' {
        start = from + 1;
    }
    let ghost d = chars@.subrange(start as int, to as int);
    assert(d =~= unsigned_digits(s));
    if start == to {
        return None;
    }
    let mut value: usize = 0;
    let mut j = start;
    assert(d.take(0) =~= Seq::<char>::empty());
    while j < to
        invariant
            from <= start < to <= chars@.len(),
            start <= j <= to,
            d == chars@.subrange(start as int, to as int),
            s == chars@.subrange(from as int, to as int),
            d == unsigned_digits(s),
            forall|i: int| 0 <= i < j - start ==> is_digit(#[trigger] d[i]),
            value == decimal_value(d.take(j - start)),
        decreases to - j,
    {
        let c = chars[j];
        assert(d[j - start] == c);
        if !('0' <= c && c <= '9') {
            assert(!is_digit(d[j - start]));
            assert(!(forall|i: int| 0 <= i < d.len() ==> is_digit(#[trigger] d[i])));
            return None;
        }
        assert(is_digit(d[j - start]));
        let digit = (c as u32 - '0' as u32) as usize;
        assert(d.take(j + 1 - start).drop_last() =~= d.take(j - start));
        let ghost next = decimal_value(d.take(j + 1 - start));
        assert(next == value * 10 + digit);
        match value.checked_mul(10) {
            Some(v) => match v.checked_add(digit) {
                Some(w) => {
                    value = w;
                },
                None => {
                    proof {
                        lemma_overflow_is_final(d, j + 1 - start);
                    }
                    return None;
                },
            },
            None => {
                proof {
                    lemma_overflow_is_final(d, j + 1 - start);
                }
                return None;
            },
        }
        j = j + 1;
    }
    assert(d.take(d.len() as int) =~= d);
    Some(value)
}

/// Once a prefix of the digits overflows, the whole numeral does not parse.
proof fn lemma_overflow_is_final(d: Seq<char>, k: int)
    requires
        0 < k <= d.len(),
        forall|i: int| 0 <= i < k ==> is_digit(#[trigger] d[i]),
        decimal_value(d.take(k)) > usize::MAX,
    ensures
        !((forall|i: int| 0 <= i < d.len() ==> is_digit(#[trigger] d[i])) && decimal_value(d)
            <= usize::MAX),
{
    if forall|i: int| 0 <= i < d.len() ==> is_digit(#[trigger] d[i]) {
        lemma_decimal_value_grows(d, k);
    }
}

/// The step that the part of `path` between `start` and `end` denotes.
fn parse_part(path: &str, chars: &Vec<char>, start: usize, end: usize) -> (step: Segment)
    requires
        chars@ == path@,
        start <= end <= chars@.len(),
    ensures
        step@ == parse_step(chars@.subrange(start as int, end as int)),
{
    let ghost part = chars@.subrange(start as int, end as int);
    if end > start && chars[end - 1] == ']' {
        let mut k = start;
        while k < end && chars[k] != '['
            invariant
                start <= k <= end,
                end <= chars@.len(),
                part == chars@.subrange(start as int, end as int),
                forall|j: int| 0 <= j < k - start ==> part[j] != '[',
            decreases end - k,
        {
            k = k + 1;
        }
        proof {
            lemma_first_index_of(part, '[', k - start);
        }
        if k == end {
            return Segment::Unbracketed;
        }
        let field = path.substring_char(start, k).to_owned();
        assert(field@ =~= part.take(k - start));
        let mut t = end;
        assert(part.skip(k - start + 1) =~= chars@.subrange(k + 1, t as int));
        while t > k + 1 && chars[t - 1] == ']'
            invariant
                k + 1 <= t <= end,
                end <= chars@.len(),
                trim_closing(part.skip(k - start + 1)) == trim_closing(
                    chars@.subrange(k + 1, t as int),
                ),
            decreases t,
        {
            assert(chars@.subrange(k + 1, t - 1) =~= chars@.subrange(k + 1, t as int).drop_last());
            t = t - 1;
        }
        let ghost index = chars@.subrange(k + 1, t as int);
        assert(trim_closing(part.skip(k - start + 1)) == index);
        let sel = if t - k == 2 && chars[k + 1] == '*' {
            assert(index =~= seq!['*']);
            IndexSel::All
        } else {
            assert(index != seq!['*']) by {
                if index == seq!['*'] {
                    assert(index.len() == 1 && index[0] == '*');
                }
            }
            match parse_index(chars, k + 1, t) {
                Some(n) => IndexSel::At(n),
                None => IndexSel::Invalid,
            }
        };
        Segment::Elem(field, sel)
    } else {
        let name = path.substring_char(start, end).to_owned();
        Segment::Key(name)
    }
}

/// The steps of `path`, or `None` when its first part is not `$`.
pub fn parse_path(path: &str) -> (steps: Option<Vec<Segment>>)
    ensures
        match steps {
            Some(v) => path_rooted(path@) && segment_views(v@) == path_steps(path@),
            None => !path_rooted(path@),
        },
{
    let chars = chars_of(path);
    let bounds = part_bounds(&chars);
    proof {
        lemma_split_on_nonempty(chars@, '.');
    }
    let (s0, e0) = bounds[0];
    let ghost first = chars@.subrange(s0 as int, e0 as int);
    if !(e0 - s0 == 1 && chars[s0] == '$') {
        assert(first != seq!['$']) by {
            if first == seq!['$'] {
                assert(first.len() == 1 && first[0] == '$');
            }
        }
        return None;
    }
    assert(first =~= seq!['$']);
    let ghost parts = path_parts(path@);
    let mut steps: Vec<Segment> = Vec::new();
    let mut i: usize = 1;
    while i < bounds.len()
        invariant
            1 <= i <= bounds@.len(),
            bounds@.len() == parts.len(),
            parts == split_on(chars@, '.'),
            chars@ == path@,
            forall|j: int|
                #![trigger bounds@[j]]
                0 <= j < bounds@.len() ==> bounds@[j].0 <= bounds@[j].1 <= chars@.len()
                    && chars@.subrange(bounds@[j].0 as int, bounds@[j].1 as int) == parts[j],
            segment_views(steps@) =~= parts.skip(1).take(i - 1).map_values(
                |part: Seq<char>| parse_step(part),
            ),
        decreases bounds@.len() - i,
    {
        let (a, b) = bounds[i];
        let step = parse_part(path, &chars, a, b);
        let ghost before = steps@;
        steps.push(step);
        assert(segment_views(steps@) =~= segment_views(before).push(step@));
        assert(parts.skip(1).take(i as int) =~= parts.skip(1).take(i - 1).push(parts[i as int]));
        i = i + 1;
        assert(segment_views(steps@) =~= parts.skip(1).take(i - 1).map_values(
            |part: Seq<char>| parse_step(part),
        ));
    }
    assert(parts.skip(1).take(i - 1) =~= parts.skip(1));
    Some(steps)
}

/// The values of an object's members or an array's elements, in order; nothing
/// for any other value.
pub open spec fn children(v: JsonView) -> Seq<JsonView> {
    match v {
        JsonView::Object(m) => m.map_values(|p: (Seq<char>, JsonView)| p.1),
        JsonView::Array(a) => a,
        _ => Seq::empty(),
    }
}

/// The value of member `key` of an object; nothing for any other value.
pub open spec fn member(v: JsonView, key: Seq<char>) -> Option<JsonView> {
    match v {
        JsonView::Object(m) => lookup(m, key),
        _ => None,
    }
}

/// What one query step selects from one value.
pub open spec fn step_from(v: JsonView, step: PathStep) -> Seq<JsonView> {
    match step {
        PathStep::Key(k) => if k == seq!['*'] {
            children(v)
        } else {
            match member(v, k) {
                Some(x) => seq![x],
                None => Seq::empty(),
            }
        },
        PathStep::Elem(f, sel) => match member(v, f) {
            Some(JsonView::Array(a)) => match sel {
                IndexSel::All => a,
                IndexSel::At(n) => if n < a.len() {
                    seq![a[n as int]]
                } else {
                    Seq::empty()
                },
                IndexSel::Invalid => Seq::empty(),
            },
            _ => Seq::empty(),
        },
        PathStep::Unbracketed => Seq::empty(),
    }
}

/// What one query step selects from each of `current`, concatenated in order.
pub open spec fn step_all(current: Seq<JsonView>, step: PathStep) -> Seq<JsonView>
    decreases current.len(),
{
    if current.len() == 0 {
        Seq::empty()
    } else {
        step_all(current.drop_last(), step) + step_from(current.last(), step)
    }
}

/// The values that `steps` select from `start`, one step after another; `None`
/// when a step is `Unbracketed` and there are values to apply it to (where
/// the query cannot go on).
pub open spec fn run_query(start: Seq<JsonView>, steps: Seq<PathStep>) -> Option<Seq<JsonView>>
    decreases steps.len(),
{
    if steps.len() == 0 {
        Some(start)
    } else {
        match run_query(start, steps.drop_last()) {
            None => None,
            Some(current) => if steps.last() is Unbracketed && current.len() > 0 {
                None
            } else {
                Some(step_all(current, steps.last()))
            },
        }
    }
}

/// What the query `path` selects from the document `json`.
pub open spec fn query_outcome(json: JsonView, path: Seq<char>) -> Option<Seq<JsonView>> {
    run_query(seq![json], path_steps(path))
}

/// The views of a sequence of borrowed values.
pub open spec fn views_of(s: Seq<&JsonValue>) -> Seq<JsonView> {
    s.map_values(|r: &JsonValue| r@)
}

/// A query that completes also completes every prefix of its steps.
proof fn lemma_run_query_prefix(start: Seq<JsonView>, steps: Seq<PathStep>, k: int)
    requires
        0 <= k <= steps.len(),
        run_query(start, steps) is Some,
    ensures
        run_query(start, steps.take(k)) is Some,
    decreases steps.len(),
{
    if k == steps.len() {
        assert(steps.take(k) =~= steps);
    } else {
        lemma_run_query_prefix(start, steps.drop_last(), k);
        assert(steps.drop_last().take(k) =~= steps.take(k));
    }
}

/// The name is the single character `*`.
fn is_star(name: &String) -> (star: bool)
    ensures
        star == (name@ == seq!['*']),
{
    let s = name.as_str();
    if s.unicode_len() == 1 {
        let c = s.get_char(0);
        if c == '*' {
            assert(name@ =~= seq!['*']);
            return true;
        }
    }
    assert(name@ != seq!['*']) by {
        if name@ == seq!['*'] {
            assert(name@.len() == 1 && name@[0] == '*');
        }
    }
    false
}

/// Appends every element of `a`.
fn collect_all<'a>(a: &'a Vec<JsonValue>, out: &mut Vec<&'a JsonValue>)
    ensures
        views_of(final(out)@) == views_of(old(out)@) + array_view(a@),
{
    let ghost start = views_of(out@);
    let mut i: usize = 0;
    while i < a.len()
        invariant
            i <= a@.len(),
            views_of(out@) == start + array_view(a@).take(i as int),
        decreases a@.len() - i,
    {
        let ghost before = out@;
        let x = &a[i];
        out.push(x);
        assert(views_of(out@) =~= views_of(before).push(array_view(a@)[i as int]));
        i = i + 1;
        assert(views_of(out@) =~= start + array_view(a@).take(i as int));
    }
    assert(array_view(a@).take(i as int) =~= array_view(a@));
}

/// Appends what `step` selects from `v`.
fn collect_step<'a>(v: &'a JsonValue, step: &Segment, out: &mut Vec<&'a JsonValue>)
    ensures
        views_of(final(out)@) == views_of(old(out)@) + step_from(v@, step@),
{
    let ghost start = views_of(out@);
    match step {
        Segment::Key(k) => {
            if is_star(k) {
                match v {
                    JsonValue::Object(m) => {
                        let n = m.len();
                        let mut i: usize = 0;
                        while i < n
                            invariant
                                n == m@.len(),
                                i <= n,
                                views_of(out@) == start + children(v@).take(i as int),
                                children(v@) == m@.map_values(|p: (Seq<char>, JsonView)| p.1),
                            decreases n - i,
                        {
                            let ghost before = out@;
                            out.push(m.value_at(i));
                            assert(views_of(out@) =~= views_of(before).push(children(v@)[i as int]));
                            i = i + 1;
                            assert(views_of(out@) =~= start + children(v@).take(i as int));
                        }
                        assert(children(v@).take(i as int) =~= children(v@));
                    },
                    JsonValue::Array(a) => {
                        collect_all(a, out);
                    },
                    _ => {
                        assert(views_of(out@) =~= start + step_from(v@, step@));
                    },
                }
            } else {
                match v {
                    JsonValue::Object(m) => match m.get(k.as_str()) {
                        Some(x) => {
                            out.push(x);
                            assert(views_of(out@) =~= start + seq![x@]);
                        },
                        None => {
                            assert(views_of(out@) =~= start + step_from(v@, step@));
                        },
                    },
                    _ => {
                        assert(views_of(out@) =~= start + step_from(v@, step@));
                    },
                }
            }
        },
        Segment::Elem(f, sel) => {
            let found = match v {
                JsonValue::Object(m) => m.get(f.as_str()),
                _ => None,
            };
            assert(match found {
                Some(x) => member(v@, f@) == Some(x@),
                None => member(v@, f@) is None,
            });
            match found {
                Some(JsonValue::Array(a)) => match sel {
                    IndexSel::All => {
                        collect_all(a, out);
                    },
                    IndexSel::At(n) => {
                        assert(member(v@, f@) == Some(JsonView::Array(array_view(a@))));
                        if *n < a.len() {
                            let x = &a[*n];
                            out.push(x);
                            assert(views_of(out@) =~= start + step_from(v@, step@));
                        } else {
                            assert(views_of(out@) =~= start + step_from(v@, step@));
                        }
                    },
                    IndexSel::Invalid => {
                        assert(views_of(out@) =~= start + step_from(v@, step@));
                    },
                },
                _ => {
                    assert(views_of(out@) =~= start + step_from(v@, step@));
                },
            }
        },
        Segment::Unbracketed => {
            assert(views_of(out@) =~= start + step_from(v@, step@));
        },
    }
}

/// The values that `steps` select from `json`, in order; `None` when the
/// query cannot go on (an `Unbracketed` step meets a non-empty selection).
pub fn run_steps<'a>(json: &'a JsonValue, steps: &Vec<Segment>) -> (found: Option<Vec<&'a JsonValue>>)
    ensures
        match found {
            Some(v) => run_query(seq![json@], segment_views(steps@)) == Some(views_of(v@)),
            None => run_query(seq![json@], segment_views(steps@)) is None,
        },
{
    let ghost all = segment_views(steps@);
    let mut current: Vec<&'a JsonValue> = Vec::new();
    current.push(json);
    let mut k: usize = 0;
    assert(all.take(0) =~= Seq::<PathStep>::empty());
    assert(views_of(current@) =~= seq![json@]);
    while k < steps.len()
        invariant
            k <= steps@.len(),
            all == segment_views(steps@),
            run_query(seq![json@], all.take(k as int)) == Some(views_of(current@)),
        decreases steps@.len() - k,
    {
        let step = &steps[k];
        proof {
            assert(all.take(k + 1).drop_last() =~= all.take(k as int));
            assert(all.take(k + 1).last() == step@);
        }
        if current.len() > 0 {
            if let Segment::Unbracketed = step {
                proof {
                    if run_query(seq![json@], all) is Some {
                        lemma_run_query_prefix(seq![json@], all, k + 1);
                    }
                }
                return None;
            }
        }
        let ghost cur = views_of(current@);
        let mut next: Vec<&'a JsonValue> = Vec::new();
        let mut j: usize = 0;
        assert(cur.take(0) =~= Seq::<JsonView>::empty());
        assert(views_of(next@) =~= step_all(cur.take(0), step@));
        while j < current.len()
            invariant
                j <= current@.len(),
                cur == views_of(current@),
                views_of(next@) == step_all(cur.take(j as int), step@),
            decreases current@.len() - j,
        {
            collect_step(current[j], step, &mut next);
            assert(cur.take(j + 1).drop_last() =~= cur.take(j as int));
            j = j + 1;
        }
        assert(cur.take(j as int) =~= cur);
        current = next;
        k = k + 1;
    }
    assert(all.take(k as int) =~= all);
    Some(current)
}

/// Whether every step of `steps` can be followed by an update.
pub fn steps_assignable(steps: &Vec<Segment>) -> (ok: bool)
    ensures
        ok == forall|j: int| 0 <= j < steps@.len() ==> assignable(#[trigger] segment_views(steps@)[j]),
{
    let mut i: usize = 0;
    while i < steps.len()
        invariant
            i <= steps@.len(),
            forall|j: int| 0 <= j < i ==> assignable(#[trigger] segment_views(steps@)[j]),
        decreases steps@.len() - i,
    {
        let ok = match &steps[i] {
            Segment::Key(_) => true,
            Segment::Elem(_, IndexSel::At(n)) => *n < usize::MAX,
            _ => false,
        };
        if !ok {
            assert(!assignable(segment_views(steps@)[i as int]));
            return false;
        }
        i = i + 1;
    }
    true
}

/// The members of an object; none for any other value.
pub open spec fn object_members(v: JsonView) -> Seq<(Seq<char>, JsonView)> {
    match v {
        JsonView::Object(m) => m,
        _ => Seq::empty(),
    }
}

/// `a`, extended with `Null` elements up to length `len`.
pub open spec fn pad_nulls(a: Seq<JsonView>, len: nat) -> Seq<JsonView> {
    if a.len() >= len {
        a
    } else {
        a + Seq::new((len - a.len()) as nat, |i: int| JsonView::Null)
    }
}

/// A step that an update can follow: a member name, or a member name with the
/// position of one element (short of the largest machine integer).
pub open spec fn assignable(step: PathStep) -> bool {
    match step {
        PathStep::Key(_) => true,
        PathStep::Elem(_, IndexSel::At(n)) => n < usize::MAX,
        _ => false,
    }
}

/// Every step of the path can be followed by an update.
pub open spec fn updatable_path(path: Seq<char>) -> bool {
    forall|i: int| 0 <= i < path_steps(path).len() ==> assignable(#[trigger] path_steps(path)[i])
}

/// The value `v` after putting `new` at the place that `steps` lead to. Every
/// value on the way that is not an object becomes an empty object; a member
/// that is missing is created (as an empty object, or as an empty array for an
/// element step); an array is extended with `Null` up to the position.
pub open spec fn assign(v: JsonView, steps: Seq<PathStep>, new: JsonView) -> JsonView
    decreases steps.len(),
{
    if steps.len() == 0 {
        new
    } else {
        let m = object_members(v);
        let rest = steps.drop_first();
        match steps[0] {
            PathStep::Key(k) => {
                let child = match lookup(m, k) {
                    Some(c) => c,
                    None => JsonView::Object(Seq::empty()),
                };
                JsonView::Object(map_insert(m, k, assign(child, rest, new)))
            },
            PathStep::Elem(f, IndexSel::At(n)) => {
                let a = match lookup(m, f) {
                    Some(JsonView::Array(a)) => a,
                    _ => Seq::empty(),
                };
                let padded = pad_nulls(a, (n + 1) as nat);
                JsonView::Object(
                    map_insert(
                        m,
                        f,
                        JsonView::Array(padded.update(n as int, assign(padded[n as int], rest, new))),
                    ),
                )
            },
            _ => v,
        }
    }
}

/// Puts `new` at the place that steps `i..` of `steps` lead to in `v`.
pub fn assign_steps(v: JsonValue, steps: &Vec<Segment>, i: usize, new: JsonValue) -> (r: JsonValue)
    requires
        i <= steps@.len(),
        forall|j: int| i <= j < steps@.len() ==> assignable(#[trigger] segment_views(steps@)[j]),
    ensures
        r@ == assign(v@, segment_views(steps@).skip(i as int), new@),
    decreases steps@.len() - i,
{
    let ghost rest = segment_views(steps@).skip(i as int);
    if i == steps.len() {
        return new;
    }
    assert(rest[0] == steps@[i as int]@);
    assert(rest.drop_first() =~= segment_views(steps@).skip(i + 1));
    let ghost members = object_members(v@);
    let mut m = match v {
        JsonValue::Object(m) => m,
        _ => JsonMap::new(),
    };
    assert(m@ == members);
    match &steps[i] {
        Segment::Key(k) => {
            let child = match m.find(k.as_str()) {
                Some(p) => {
                    let c = m.take_value(p);
                    proof {
                        lemma_map_insert_after_take(members, p as int, k@, JsonView::Null, assign(c@, rest.drop_first(), new@));
                    }
                    c
                },
                None => JsonValue::Object(JsonMap::new()),
            };
            let updated = assign_steps(child, steps, i + 1, new);
            m.insert(k.clone(), updated);
            JsonValue::Object(m)
        },
        Segment::Elem(f, IndexSel::At(n)) => {
            let n = *n;
            let found = m.find(f.as_str());
            let mut a: Vec<JsonValue> = match found {
                Some(p) => match m.take_value(p) {
                    JsonValue::Array(a) => a,
                    _ => Vec::new(),
                },
                None => Vec::new(),
            };
            let ghost start = array_view(a@);
            assert(start == match lookup(members, f@) {
                Some(JsonView::Array(x)) => x,
                _ => Seq::empty(),
            });
            assert(pad_nulls(start, a@.len()) =~= start);
            while a.len() <= n
                invariant
                    n < usize::MAX,
                    a@.len() >= start.len(),
                    a@.len() <= n + 1 || a@.len() == start.len(),
                    array_view(a@) == pad_nulls(start, a@.len()),
                decreases n + 1 - a@.len(),
            {
                let ghost before = a@;
                a.push(JsonValue::Null);
                assert(array_view(a@) =~= array_view(before).push(JsonView::Null));
                assert(pad_nulls(start, a@.len()) =~= pad_nulls(start, before.len()).push(
                    JsonView::Null,
                ));
            }
            let ghost padded = array_view(a@);
            assert(padded =~= pad_nulls(start, (n + 1) as nat));
            let child = a.remove(n);
            let updated = assign_steps(child, steps, i + 1, new);
            let ghost updated_view = updated@;
            a.insert(n, updated);
            assert(array_view(a@) =~= padded.update(n as int, updated_view));
            proof {
                if let Some(p) = found {
                    lemma_map_insert_after_take(
                        members,
                        p as int,
                        f@,
                        JsonView::Null,
                        JsonView::Array(array_view(a@)),
                    );
                }
            }
            m.insert(f.clone(), JsonValue::Array(a));
            JsonValue::Object(m)
        },
        _ => {
            assert(false);
            JsonValue::Object(m)
        },
    }
}

/// A step that selects at most one value: a member name other than `*`, or
/// one element position (short of the largest machine integer).
pub open spec fn addressing_step(step: PathStep) -> bool {
    match step {
        PathStep::Key(k) => k != seq!['*'],
        PathStep::Elem(_, IndexSel::At(n)) => n < usize::MAX,
        _ => false,
    }
}

/// Every step of the path selects at most one value.
pub open spec fn addressing_path(path: Seq<char>) -> bool {
    forall|i: int|
        0 <= i < path_steps(path).len() ==> addressing_step(#[trigger] path_steps(path)[i])
}

/// The value that an addressing step selects from `v`, if any.
pub open spec fn select_one(v: JsonView, step: PathStep) -> Option<JsonView> {
    match step {
        PathStep::Key(k) => member(v, k),
        PathStep::Elem(f, IndexSel::At(n)) => match member(v, f) {
            Some(JsonView::Array(a)) => if n < a.len() {
                Some(a[n as int])
            } else {
                None
            },
            _ => None,
        },
        _ => None,
    }
}

/// The value that addressing `steps` lead to from `v`, if any.
pub open spec fn follow(v: JsonView, steps: Seq<PathStep>) -> Option<JsonView>
    decreases steps.len(),
{
    if steps.len() == 0 {
        Some(v)
    } else {
        match select_one(v, steps[0]) {
            Some(c) => follow(c, steps.drop_first()),
            None => None,
        }
    }
}

/// No value or one value, as a sequence.
pub open spec fn option_seq(o: Option<JsonView>) -> Seq<JsonView> {
    match o {
        Some(x) => seq![x],
        None => Seq::empty(),
    }
}

/// Following steps is following all but the last, then the last.
proof fn lemma_follow_last(v: JsonView, steps: Seq<PathStep>)
    requires
        steps.len() > 0,
    ensures
        follow(v, steps) == match follow(v, steps.drop_last()) {
            Some(c) => select_one(c, steps.last()),
            None => None,
        },
    decreases steps.len(),
{
    if steps.len() > 1 {
        assert(steps.drop_first().drop_last() =~= steps.drop_last().drop_first());
        assert(steps.drop_last()[0] == steps[0]);
        assert(steps.drop_first().last() == steps.last());
        let init = steps.drop_last();
        assert(init.len() > 0);
        match select_one(v, steps[0]) {
            Some(c) => {
                lemma_follow_last(c, steps.drop_first());
                assert(follow(v, steps) == follow(c, steps.drop_first()));
                assert(follow(v, init) == follow(c, init.drop_first()));
                assert(init.drop_first() == steps.drop_first().drop_last());
                assert(follow(v, steps) == match follow(v, steps.drop_last()) {
                    Some(x) => select_one(x, steps.last()),
                    None => None,
                });
            },
            None => {
                assert(follow(v, init) is None);
            },
        }
    } else {
        assert(steps.drop_last() =~= Seq::<PathStep>::empty());
        assert(steps.last() == steps[0]);
        match select_one(v, steps[0]) {
            Some(c) => {
                assert(steps.drop_first() =~= Seq::<PathStep>::empty());
                assert(follow(c, steps.drop_first()) == Some(c));
                assert(follow(v, steps.drop_last()) == Some(v));
            },
            None => {},
        }
    }
}

/// A query made of addressing steps selects what following them leads to.
proof fn lemma_run_query_follow(v: JsonView, steps: Seq<PathStep>)
    requires
        forall|i: int| 0 <= i < steps.len() ==> addressing_step(#[trigger] steps[i]),
    ensures
        run_query(seq![v], steps) == Some(option_seq(follow(v, steps))),
    decreases steps.len(),
{
    if steps.len() > 0 {
        let init = steps.drop_last();
        assert forall|i: int| 0 <= i < init.len() implies addressing_step(#[trigger] init[i]) by {
            assert(init[i] == steps[i]);
        }
        lemma_run_query_follow(v, init);
        lemma_follow_last(v, steps);
        let last = steps.last();
        assert(addressing_step(steps[steps.len() - 1]));
        let current = option_seq(follow(v, init));
        match follow(v, init) {
            Some(c) => {
                assert(current.drop_last() =~= Seq::<JsonView>::empty());
                assert(current.last() == c);
                assert(step_all(current.drop_last(), last) == Seq::<JsonView>::empty());
                assert(step_all(current, last) =~= step_from(c, last));
                assert(step_from(c, last) =~= option_seq(select_one(c, last)));
            },
            None => {},
        }
    }
}

/// Updating then following the same addressing steps leads to the value put there.
proof fn lemma_follow_assign(v: JsonView, steps: Seq<PathStep>, new: JsonView)
    requires
        forall|i: int| 0 <= i < steps.len() ==> addressing_step(#[trigger] steps[i]),
    ensures
        follow(assign(v, steps, new), steps) == Some(new),
    decreases steps.len(),
{
    if steps.len() > 0 {
        let rest = steps.drop_first();
        assert forall|i: int| 0 <= i < rest.len() implies addressing_step(#[trigger] rest[i]) by {
            assert(rest[i] == steps[i + 1]);
        }
        assert(addressing_step(steps[0]));
        let m = object_members(v);
        match steps[0] {
            PathStep::Key(k) => {
                let child = match lookup(m, k) {
                    Some(c) => c,
                    None => JsonView::Object(Seq::empty()),
                };
                lemma_follow_assign(child, rest, new);
                lemma_lookup_map_insert(m, k, assign(child, rest, new), k);
            },
            PathStep::Elem(f, IndexSel::At(n)) => {
                let a = match lookup(m, f) {
                    Some(JsonView::Array(a)) => a,
                    _ => Seq::empty(),
                };
                let padded = pad_nulls(a, (n + 1) as nat);
                lemma_follow_assign(padded[n as int], rest, new);
                let updated = JsonView::Array(
                    padded.update(n as int, assign(padded[n as int], rest, new)),
                );
                lemma_lookup_map_insert(m, f, updated, f);
            },
            _ => {},
        }
    }
}

/// What a query reads back of an update: after putting `new` at a path whose
/// steps each name one member (other than `*`) or one element position,
/// querying the same path selects exactly `new`.
pub proof fn lemma_query_after_set(json: JsonView, path: Seq<char>, new: JsonView)
    requires
        path_rooted(path),
        addressing_path(path),
    ensures
        query_outcome(assign(json, path_steps(path), new), path) == Some(seq![new]),
{
    let steps = path_steps(path);
    lemma_follow_assign(json, steps, new);
    lemma_run_query_follow(assign(json, steps, new), steps);
}

/// The member name of a key or element step.
pub open spec fn step_name(step: PathStep) -> Seq<char> {
    match step {
        PathStep::Key(k) => k,
        PathStep::Elem(f, _) => f,
        PathStep::Unbracketed => Seq::empty(),
    }
}

/// An update changes only the member that its first step names: every other
/// member of an object keeps its value.
pub proof fn lemma_assign_keeps_other_members(
    v: JsonView,
    steps: Seq<PathStep>,
    new: JsonView,
    other: Seq<char>,
)
    requires
        steps.len() > 0,
        assignable(steps[0]),
        other != step_name(steps[0]),
    ensures
        member(assign(v, steps, new), other) == member(
            JsonView::Object(object_members(v)),
            other,
        ),
{
    let m = object_members(v);
    let rest = steps.drop_first();
    match steps[0] {
        PathStep::Key(k) => {
            let child = match lookup(m, k) {
                Some(c) => c,
                None => JsonView::Object(Seq::empty()),
            };
            lemma_lookup_map_insert(m, k, assign(child, rest, new), other);
        },
        PathStep::Elem(f, IndexSel::At(n)) => {
            let a = match lookup(m, f) {
                Some(JsonView::Array(a)) => a,
                _ => Seq::empty(),
            };
            let padded = pad_nulls(a, (n + 1) as nat);
            let updated = JsonView::Array(
                padded.update(n as int, assign(padded[n as int], rest, new)),
            );
            lemma_lookup_map_insert(m, f, updated, other);
        },
        _ => {},
    }
}

/// The new value of member `f` after an update whose first step is `f[n]`.
proof fn lemma_assign_element_member(
    v: JsonView,
    f: Seq<char>,
    n: usize,
    rest: Seq<PathStep>,
    new: JsonView,
)
    ensures
        ({
            let a = match lookup(object_members(v), f) {
                Some(JsonView::Array(a)) => a,
                _ => Seq::empty(),
            };
            let padded = pad_nulls(a, (n + 1) as nat);
            member(assign(v, seq![PathStep::Elem(f, IndexSel::At(n))] + rest, new), f) == Some(
                JsonView::Array(padded.update(n as int, assign(padded[n as int], rest, new))),
            )
        }),
{
    let steps = seq![PathStep::Elem(f, IndexSel::At(n))] + rest;
    assert(steps[0] == PathStep::Elem(f, IndexSel::At(n)));
    assert(steps.drop_first() =~= rest);
    let m = object_members(v);
    let a = match lookup(m, f) {
        Some(JsonView::Array(a)) => a,
        _ => Seq::empty(),
    };
    let padded = pad_nulls(a, (n + 1) as nat);
    lemma_lookup_map_insert(
        m,
        f,
        JsonView::Array(padded.update(n as int, assign(padded[n as int], rest, new))),
        f,
    );
}

/// Setting an element of an existing array changes that element only: when
/// member `f` holds the array `a` and `n < a.len()`, an update whose first
/// step is `f[n]` leaves `f` an array of the same length, equal to `a` at every
/// other position, whose element `n` is the old element `a[n]` updated by the
/// remaining steps.
pub proof fn lemma_assign_existing_element(
    v: JsonView,
    f: Seq<char>,
    n: usize,
    a: Seq<JsonView>,
    rest: Seq<PathStep>,
    new: JsonView,
)
    requires
        member(v, f) == Some(JsonView::Array(a)),
        n < a.len(),
    ensures
        ({
            let r = assign(v, seq![PathStep::Elem(f, IndexSel::At(n))] + rest, new);
            &&& member(r, f) matches Some(JsonView::Array(b))
            &&& b.len() == a.len()
            &&& b[n as int] == assign(a[n as int], rest, new)
            &&& forall|j: int| 0 <= j < a.len() && j != n ==> b[j] == a[j]
        }),
{
    lemma_assign_element_member(v, f, n, rest, new);
    assert(object_members(v) == v->Object_0);
}

/// An update below an element of an existing array reaches into that element:
/// every member of the old element other than the one the next step names
/// keeps its value.
pub proof fn lemma_assign_existing_element_keeps_members(
    v: JsonView,
    f: Seq<char>,
    n: usize,
    a: Seq<JsonView>,
    rest: Seq<PathStep>,
    new: JsonView,
    other: Seq<char>,
)
    requires
        member(v, f) == Some(JsonView::Array(a)),
        n < a.len(),
        rest.len() > 0,
        assignable(rest[0]),
        other != step_name(rest[0]),
    ensures
        match member(assign(v, seq![PathStep::Elem(f, IndexSel::At(n))] + rest, new), f) {
            Some(JsonView::Array(b)) => n < b.len() && member(b[n as int], other) == member(
                JsonView::Object(object_members(a[n as int])),
                other,
            ),
            _ => false,
        },
{
    lemma_assign_existing_element(v, f, n, a, rest, new);
    lemma_assign_keeps_other_members(a[n as int], rest, new, other);
}

/// Setting an element past the end of an array (or of a missing one) extends
/// it: the old elements stay, the positions up to `n` are filled with `Null`,
/// and position `n` holds `Null` updated by the remaining steps.
pub proof fn lemma_assign_new_element(
    v: JsonView,
    f: Seq<char>,
    n: usize,
    a: Seq<JsonView>,
    rest: Seq<PathStep>,
    new: JsonView,
)
    requires
        member(v, f) == Some(JsonView::Array(a)) || (v is Object && member(v, f) is None
            && a.len() == 0),
        n >= a.len(),
    ensures
        ({
            let r = assign(v, seq![PathStep::Elem(f, IndexSel::At(n))] + rest, new);
            &&& member(r, f) matches Some(JsonView::Array(b))
            &&& b.len() == n + 1
            &&& forall|j: int| 0 <= j < a.len() ==> b[j] == a[j]
            &&& forall|j: int| a.len() <= j < n ==> b[j] == JsonView::Null
            &&& b[n as int] == assign(JsonView::Null, rest, new)
        }),
{
    lemma_assign_element_member(v, f, n, rest, new);
    assert(object_members(v) == v->Object_0);
}

/// An update whose first step names member `k` reaches into that member: the
/// member becomes its old value (or an empty object where it was missing)
/// updated by the remaining steps.
pub proof fn lemma_assign_member(v: JsonView, k: Seq<char>, rest: Seq<PathStep>, new: JsonView)
    ensures
        member(assign(v, seq![PathStep::Key(k)] + rest, new), k) == Some(
            assign(
                match member(v, k) {
                    Some(c) => c,
                    None => JsonView::Object(Seq::empty()),
                },
                rest,
                new,
            ),
        ),
{
    let steps = seq![PathStep::Key(k)] + rest;
    assert(steps[0] == PathStep::Key(k));
    assert(steps.drop_first() =~= rest);
    let m = object_members(v);
    let child = match lookup(m, k) {
        Some(c) => c,
        None => JsonView::Object(Seq::empty()),
    };
    lemma_lookup_map_insert(m, k, assign(child, rest, new), k);
    if !(v is Object) {
        assert(lookup(m, k) is None);
    }
}

/// A part without `.` that does not end with `]` is a member step.
proof fn lemma_parse_member_part(k: Seq<char>)
    requires
        k.len() == 0 || k.last() != ']',
    ensures
        parse_step(k) == PathStep::Key(k),
{
}

/// Querying `$.k`, for a member name `k` other than `*` (without `.`, not
/// ending with `]`), gives the value of member `k`, or nothing when it is
/// missing or the document is not an object.
pub proof fn lemma_query_member(json: JsonView, k: Seq<char>)
    requires
        forall|i: int| 0 <= i < k.len() ==> k[i] != '.',
        k.len() == 0 || k.last() != ']',
        k != seq!['*'],
    ensures
        query_outcome(json, seq!['$', '.'] + k) == Some(
            match member(json, k) {
                Some(x) => seq![x],
                None => Seq::empty(),
            },
        ),
{
    lemma_query_one_part(json, k);
    lemma_parse_member_part(k);
}

/// Querying `$.*` gives the values of an object's members in key order, the
/// elements of an array in order, and nothing for any other value.
pub proof fn lemma_query_wildcard(json: JsonView)
    ensures
        query_outcome(json, seq!['$', '.', '*']) == Some(
            match json {
                JsonView::Object(m) => m.map_values(|p: (Seq<char>, JsonView)| p.1),
                JsonView::Array(a) => a,
                _ => Seq::empty(),
            },
        ),
{
    let star = seq!['*'];
    assert(seq!['$', '.'] + star =~= seq!['$', '.', '*']);
    lemma_query_one_part(json, star);
    lemma_parse_member_part(star);
}

/// `f` followed by `[*]` is the step of every element of member `f`.
proof fn lemma_parse_all_elements_part(f: Seq<char>)
    requires
        forall|j: int| 0 <= j < f.len() ==> f[j] != '[',
    ensures
        parse_step(f + seq!['[', '*', ']']) == PathStep::Elem(f, IndexSel::All),
{
    let part = f + seq!['[', '*', ']'];
    let k = f.len() as int;
    assert forall|j: int| 0 <= j < k implies part[j] != '[' by {
        assert(part[j] == f[j]);
    }
    assert(part[k] == '[');
    lemma_first_index_of(part, '[', k);
    assert(part.take(k) =~= f);
    assert(part.skip(k + 1) =~= seq!['*'].push(']'));
    assert(seq!['*'].push(']').drop_last() =~= seq!['*']);
    assert(trim_closing(seq!['*']) == seq!['*']);
    assert(part.len() > 0 && part.last() == ']');
}

/// Querying `$.f[*]` gives the elements of the array in member `f`, in order,
/// and nothing when `f` does not hold an array.
pub proof fn lemma_query_all_elements(json: JsonView, f: Seq<char>)
    requires
        forall|j: int| 0 <= j < f.len() ==> f[j] != '[' && f[j] != '.',
    ensures
        query_outcome(json, seq!['$', '.'] + f + seq!['[', '*', ']']) == Some(
            match member(json, f) {
                Some(JsonView::Array(a)) => a,
                _ => Seq::empty(),
            },
        ),
{
    let part = f + seq!['[', '*', ']'];
    assert(seq!['$', '.'] + f + seq!['[', '*', ']'] =~= seq!['$', '.'] + part);
    assert forall|i: int| 0 <= i < part.len() implies part[i] != '.' by {
        if i < f.len() {
            assert(part[i] == f[i]);
        }
    }
    lemma_query_one_part(json, part);
    lemma_parse_all_elements_part(f);
}

/// Querying `$.f[n]`, with `n` written in decimal, gives element `n` of the
/// array in member `f`, and nothing when there is no such element.
pub proof fn lemma_query_element(json: JsonView, f: Seq<char>, n: usize)
    requires
        forall|j: int| 0 <= j < f.len() ==> f[j] != '[' && f[j] != '.',
    ensures
        query_outcome(json, seq!['$', '.'] + f + seq!['['] + decimal_text(n as nat) + seq![']'])
            == Some(
            match member(json, f) {
                Some(JsonView::Array(a)) => if n < a.len() {
                    seq![a[n as int]]
                } else {
                    Seq::empty()
                },
                _ => Seq::empty(),
            },
        ),
{
    let digits = decimal_text(n as nat);
    let part = f + seq!['['] + digits + seq![']'];
    assert(seq!['$', '.'] + f + seq!['['] + digits + seq![']'] =~= seq!['$', '.'] + part);
    lemma_decimal_text_reads_back(n as nat);
    assert forall|i: int| 0 <= i < part.len() implies part[i] != '.' by {
        if i < f.len() {
            assert(part[i] == f[i]);
        } else if f.len() < i < f.len() + 1 + digits.len() {
            assert(part[i] == digits[i - f.len() - 1]);
            assert(is_digit(digits[i - f.len() - 1]));
        }
    }
    lemma_query_one_part(json, part);
    lemma_element_step_position(f, n);
}

/// No part of the path ends with `]` without holding a `[`.
pub open spec fn bracketed_path(path: Seq<char>) -> bool {
    forall|i: int| 0 <= i < path_steps(path).len() ==> !(#[trigger] path_steps(path)[i] is Unbracketed)
}

proof fn lemma_run_query_completes(start: Seq<JsonView>, steps: Seq<PathStep>)
    requires
        forall|i: int| 0 <= i < steps.len() ==> !(#[trigger] steps[i] is Unbracketed),
    ensures
        run_query(start, steps) is Some,
    decreases steps.len(),
{
    if steps.len() > 0 {
        let init = steps.drop_last();
        assert forall|i: int| 0 <= i < init.len() implies !(#[trigger] init[i] is Unbracketed) by {
            assert(init[i] == steps[i]);
        }
        lemma_run_query_completes(start, init);
        assert(!(steps[steps.len() - 1] is Unbracketed));
    }
}

/// A query goes through to the end on every document when no part of its
/// path ends with `]` without holding a `[`.
pub proof fn lemma_bracketed_query_completes(json: JsonView, path: Seq<char>)
    requires
        bracketed_path(path),
    ensures
        query_outcome(json, path) is Some,
{
    lemma_run_query_completes(seq![json], path_steps(path));
}

/// The query `path` run on each of `current` in turn, the results
/// concatenated in order; `None` when the query does not go through on one of
/// them.
pub open spec fn query_each(current: Seq<JsonView>, path: Seq<char>) -> Option<Seq<JsonView>>
    decreases current.len(),
{
    if current.len() == 0 {
        Some(Seq::empty())
    } else {
        match (query_each(current.drop_last(), path), query_outcome(current.last(), path)) {
            (Some(earlier), Some(last)) => Some(earlier + last),
            _ => None,
        }
    }
}

/// Splitting `a`, a separator and `b` (which holds no separator) gives the
/// parts of `a` and then `b`.
proof fn lemma_split_on_append(a: Seq<char>, b: Seq<char>, sep: char)
    requires
        forall|i: int| 0 <= i < b.len() ==> b[i] != sep,
    ensures
        split_on(a + seq![sep] + b, sep) == split_on(a, sep).push(b),
    decreases b.len(),
{
    let whole = a + seq![sep] + b;
    if b.len() == 0 {
        assert(whole.drop_last() =~= a);
        assert(b =~= Seq::<char>::empty());
    } else {
        let init = b.drop_last();
        assert forall|i: int| 0 <= i < init.len() implies init[i] != sep by {
            assert(init[i] == b[i]);
        }
        lemma_split_on_append(a, init, sep);
        assert(whole.drop_last() =~= a + seq![sep] + init);
        assert(whole.last() == b.last());
        assert(init.push(b.last()) =~= b);
        assert(split_on(whole, sep) =~= split_on(a, sep).push(b));
    }
}

/// The steps of `path`, `.`, `part` are those of `path` and then the step of
/// `part`.
proof fn lemma_path_steps_append(path: Seq<char>, part: Seq<char>)
    requires
        forall|i: int| 0 <= i < part.len() ==> part[i] != '.',
    ensures
        path_steps(path + seq!['.'] + part) == path_steps(path).push(parse_step(part)),
{
    lemma_split_on_append(path, part, '.');
    lemma_split_on_nonempty(path, '.');
    let parts = split_on(path, '.');
    assert(parts.push(part).skip(1) =~= parts.skip(1).push(part));
    assert(path_steps(path + seq!['.'] + part) =~= path_steps(path).push(parse_step(part)));
}

/// Running one more step after `steps`.
proof fn lemma_run_query_push(start: Seq<JsonView>, steps: Seq<PathStep>, step: PathStep)
    ensures
        run_query(start, steps.push(step)) == match run_query(start, steps) {
            None => None,
            Some(current) => if step is Unbracketed && current.len() > 0 {
                None
            } else {
                Some(step_all(current, step))
            },
        },
{
    assert(steps.push(step).drop_last() =~= steps);
}

/// A query of the single step `part` on `v` selects what that step selects
/// from `v`, unless the step cannot be applied.
proof fn lemma_query_one_part(v: JsonView, part: Seq<char>)
    requires
        forall|i: int| 0 <= i < part.len() ==> part[i] != '.',
    ensures
        query_outcome(v, seq!['$', '.'] + part) == if parse_step(part) is Unbracketed {
            None
        } else {
            Some(step_from(v, parse_step(part)))
        },
{
    let root = seq!['$'];
    assert(seq!['$', '.'] + part =~= root + seq!['.'] + part);
    lemma_path_steps_append(root, part);
    assert(root.drop_last() =~= Seq::<char>::empty());
    assert(split_on(Seq::<char>::empty(), '.') == seq![Seq::<char>::empty()]);
    assert(Seq::<char>::empty().push('$') =~= root);
    assert(split_on(root, '.') =~~= seq![root]);
    assert(path_steps(root) =~= Seq::<PathStep>::empty());
    assert(Seq::<PathStep>::empty().push(parse_step(part)).drop_last() =~= Seq::<PathStep>::empty());
    let single = seq![v];
    lemma_run_query_push(single, Seq::<PathStep>::empty(), parse_step(part));
    assert(path_steps(seq!['$', '.'] + part) == Seq::<PathStep>::empty().push(parse_step(part)));
    assert(single.drop_last() =~= Seq::<JsonView>::empty());
    assert(step_all(Seq::<JsonView>::empty(), parse_step(part)) == Seq::<JsonView>::empty());
    assert(step_all(single, parse_step(part)) =~= step_from(v, parse_step(part)));
}

/// Querying the single part `part` on each of `current` is applying its step
/// to all of them.
proof fn lemma_query_each_one_part(current: Seq<JsonView>, part: Seq<char>)
    requires
        forall|i: int| 0 <= i < part.len() ==> part[i] != '.',
    ensures
        query_each(current, seq!['$', '.'] + part) == if parse_step(part) is Unbracketed
            && current.len() > 0 {
            None
        } else {
            Some(step_all(current, parse_step(part)))
        },
    decreases current.len(),
{
    if current.len() > 0 {
        lemma_query_each_one_part(current.drop_last(), part);
        lemma_query_one_part(current.last(), part);
    }
}

/// Queries compose: querying `path`, `.`, `part` (a part without `.`) selects,
/// in order, what the query `$.part` selects from each value that `path`
/// selects, and goes through exactly when both queries do.
pub proof fn lemma_query_composes(json: JsonView, path: Seq<char>, part: Seq<char>)
    requires
        path_rooted(path),
        forall|i: int| 0 <= i < part.len() ==> part[i] != '.',
    ensures
        query_outcome(json, path + seq!['.'] + part) == match query_outcome(json, path) {
            None => None,
            Some(current) => query_each(current, seq!['$', '.'] + part),
        },
{
    lemma_path_steps_append(path, part);
    lemma_run_query_push(seq![json], path_steps(path), parse_step(part));
    match query_outcome(json, path) {
        None => {},
        Some(current) => {
            lemma_query_each_one_part(current, part);
        },
    }
}

/// Every addressing path can be updated.
pub proof fn lemma_addressing_path_updatable(path: Seq<char>)
    requires
        addressing_path(path),
    ensures
        updatable_path(path),
{
    assert forall|i: int| 0 <= i < path_steps(path).len() implies assignable(
        #[trigger] path_steps(path)[i],
    ) by {
        assert(addressing_step(path_steps(path)[i]));
    }
}

} // verus!
