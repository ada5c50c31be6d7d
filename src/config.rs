//! The configuration model and its parser: one pass over the lines, each line
//! turned into at most one `(key, value)` entry, later entries replacing
//! earlier ones of the same key.
use vstd::prelude::*;
use crate::number::{is_number, is_number_text};
use crate::text::{
    before_first, contains_in, find_in, has_char, lemma_before_first, split_on, split_ranges,
    to_chars, trim, trim_range,
};

verus! {

/// The value of one key: the number texts of its field, in order, and the
/// text that stands for the field where it is not a list of numbers.
#[derive(Clone, Debug)]
pub struct CfgData {
    pub numeric: Vec<String>,
    pub string: String,
}

/// What a `CfgData` holds, as sequences of characters.
pub struct CfgDataView {
    pub numeric: Seq<Seq<char>>,
    pub string: Seq<char>,
}

impl View for CfgData {
    type V = CfgDataView;

    open spec fn view(&self) -> CfgDataView {
        CfgDataView { numeric: self.numeric@.map_values(|t: String| t@), string: self.string@ }
    }
}

/// The value before any segment of a line is read: no numbers, empty string.
pub open spec fn empty_value() -> CfgDataView {
    CfgDataView { numeric: Seq::empty(), string: Seq::empty() }
}

/// The trimmed comma-separated subitems of a value segment.
pub open spec fn subitems(seg: Seq<char>) -> Seq<Seq<char>> {
    split_on(seg, ',').map_values(|t: Seq<char>| trim(t))
}

pub open spec fn all_numbers(items: Seq<Seq<char>>) -> bool {
    forall|i: int| 0 <= i < items.len() ==> is_number(#[trigger] items[i])
}

/// The value after the trimmed segment `seg` of a line is read into `v`.
///
/// Without a comma, a number is appended and any other text becomes the
/// string. With a comma, the subitems are appended where all are numbers;
/// otherwise every number read so far is dropped and the whole segment becomes
/// the string.
pub open spec fn apply_segment(v: CfgDataView, seg: Seq<char>) -> CfgDataView {
    if !has_char(seg, ',') {
        if is_number(seg) {
            CfgDataView { numeric: v.numeric.push(seg), string: v.string }
        } else {
            CfgDataView { numeric: v.numeric, string: seg }
        }
    } else if all_numbers(subitems(seg)) {
        CfgDataView { numeric: v.numeric + subitems(seg), string: v.string }
    } else {
        CfgDataView { numeric: Seq::empty(), string: seg }
    }
}

/// The value that the untrimmed value segments `segs` of a line give, read
/// left to right.
pub open spec fn fold_segments(segs: Seq<Seq<char>>) -> CfgDataView
    decreases segs.len(),
{
    if segs.len() == 0 {
        empty_value()
    } else {
        apply_segment(fold_segments(segs.drop_last()), trim(segs.last()))
    }
}

/// The entry that a line gives. Text from the first `#` on is a comment; what
/// is left splits at each `=`: the trimmed first field is the key and the
/// others are the value segments. Where no `=` is left there is no entry.
pub open spec fn line_entry(line: Seq<char>) -> Option<(Seq<char>, CfgDataView)> {
    let fields = split_on(before_first(line, '#'), '=');
    if fields.len() < 2 {
        None
    } else {
        Some((trim(fields[0]), fold_segments(fields.drop_first())))
    }
}

/// The map after `line` is read into `m`.
pub open spec fn apply_line(m: Map<Seq<char>, CfgDataView>, line: Seq<char>) -> Map<
    Seq<char>,
    CfgDataView,
> {
    match line_entry(line) {
        Some((k, v)) => m.insert(k, v),
        None => m,
    }
}

/// The map that the lines give, read in order into an empty map.
pub open spec fn config_of(lines: Seq<Seq<char>>) -> Map<Seq<char>, CfgDataView>
    decreases lines.len(),
{
    if lines.len() == 0 {
        Map::empty()
    } else {
        apply_line(config_of(lines.drop_last()), lines.last())
    }
}

pub open spec fn entry_view(e: Option<(String, CfgData)>) -> Option<(Seq<char>, CfgDataView)> {
    match e {
        Some((k, v)) => Some((k@, v@)),
        None => None,
    }
}

/// The characters of `line` in `a..b`, as an owned string.
fn text_of(line: &str, a: usize, b: usize) -> (r: String)
    requires
        a <= b <= line@.len(),
    ensures
        r@ == line@.subrange(a as int, b as int),
{
    String::from_str(line.substring_char(a, b))
}

/// Reads the value segment `chars[a..b]` of `line`, already trimmed, into `val`.
fn read_segment(val: &mut CfgData, line: &str, chars: &Vec<char>, a: usize, b: usize)
    requires
        chars@ == line@,
        a <= b <= chars@.len(),
    ensures
        final(val)@ == apply_segment(old(val)@, chars@.subrange(a as int, b as int)),
{
    let ghost seg = chars@.subrange(a as int, b as int);
    let ghost old_numeric = val@.numeric;
    if !contains_in(chars, a, b, ',') {
        let t = text_of(line, a, b);
        if is_number_text(chars, a, b) {
            val.numeric.push(t);
            assert(val@.numeric =~= old_numeric.push(seg));
        } else {
            val.string = t;
        }
        return;
    }
    let items = split_ranges(chars, a, b, ',');
    let ghost subs = subitems(seg);
    let mut k: usize = 0;
    while k < items.len()
        invariant
            chars@ == line@,
            a <= b <= chars@.len(),
            seg == chars@.subrange(a as int, b as int),
            subs == subitems(seg),
            has_char(seg, ','),
            items@.len() == split_on(seg, ',').len(),
            forall|j: int|
                0 <= j < items@.len() ==> {
                    &&& a <= (#[trigger] items@[j]).0 <= items@[j].1 <= b
                    &&& chars@.subrange(items@[j].0 as int, items@[j].1 as int) == split_on(
                        seg,
                        ',',
                    )[j]
                },
            0 <= k <= items@.len(),
            val@.numeric == old_numeric + subs.take(k as int),
            val@.string == old(val)@.string,
            old_numeric == old(val)@.numeric,
            forall|j: int| 0 <= j < k ==> is_number(#[trigger] subs[j]),
        decreases items@.len() - k,
    {
        let (c, d) = trim_range(chars, items[k].0, items[k].1);
        assert(chars@.subrange(c as int, d as int) == subs[k as int]);
        if is_number_text(chars, c, d) {
            let ghost prev = val@.numeric;
            val.numeric.push(text_of(line, c, d));
            assert(val@.numeric =~= prev.push(subs[k as int]));
            assert(subs.take(k + 1) =~= subs.take(k as int).push(subs[k as int]));
            assert(val@.numeric =~= old_numeric + subs.take(k + 1));
        } else {
            val.numeric = Vec::new();
            val.string = text_of(line, a, b);
            assert(!all_numbers(subs));
            assert(val@.numeric =~= Seq::<Seq<char>>::empty());
            return;
        }
        k = k + 1;
    }
    assert(subs.take(k as int) =~= subs);
}

/// The entry that `line` gives: its key and its value, or `None` where the
/// line holds no `=` before its first `#`.
pub fn parse_line(line: &str) -> (r: Option<(String, CfgData)>)
    ensures
        entry_view(r) == line_entry(line@),
{
    let chars = to_chars(line);
    let n = chars.len();
    let end = find_in(&chars, 0, n, '#');
    proof {
        assert(chars@.subrange(0, n as int) =~= chars@);
        lemma_before_first(chars@, '#', end as int);
    }
    let ghost body = chars@.subrange(0, end as int);
    let ghost fields = split_on(body, '=');
    if !contains_in(&chars, 0, n, '=') {
        proof {
            assert(!has_char(body, '=')) by {
                if has_char(body, '=') {
                    let i = choose|i: int| 0 <= i < body.len() && body[i] == '=';
                    assert(chars@.subrange(0, n as int)[i] == '=');
                }
            }
            lemma_split_on_no_sep(body, '=');
        }
        return None;
    }
    let ranges = split_ranges(&chars, 0, end, '=');
    if ranges.len() < 2 {
        return None;
    }
    let (ka, kb) = trim_range(&chars, ranges[0].0, ranges[0].1);
    let key = text_of(line, ka, kb);
    let mut val = CfgData { numeric: Vec::new(), string: String::new() };
    assert(val@.numeric =~= empty_value().numeric);
    assert(val@.string =~= empty_value().string);
    let mut j: usize = 1;
    while j < ranges.len()
        invariant
            chars@ == line@,
            body == chars@.subrange(0, end as int),
            end <= chars@.len(),
            fields == split_on(body, '='),
            ranges@.len() == fields.len(),
            forall|i: int|
                0 <= i < ranges@.len() ==> {
                    &&& 0 <= (#[trigger] ranges@[i]).0 <= ranges@[i].1 <= end
                    &&& chars@.subrange(ranges@[i].0 as int, ranges@[i].1 as int) == fields[i]
                },
            1 <= j <= ranges@.len(),
            val@ == fold_segments(fields.subrange(1, j as int)),
        decreases ranges@.len() - j,
    {
        let (a, b) = trim_range(&chars, ranges[j].0, ranges[j].1);
        read_segment(&mut val, line, &chars, a, b);
        assert(fields.subrange(1, j + 1).drop_last() =~= fields.subrange(1, j as int));
        j = j + 1;
    }
    assert(fields.subrange(1, j as int) =~= fields.drop_first());
    Some((key, val))
}

/// The map from key to value that a configuration text gives.
pub struct ConfigMap {
    entries: Vec<(String, CfgData)>,
    model: Ghost<Map<Seq<char>, CfgDataView>>,
}

impl ConfigMap {
    /// Keys are unique among the entries, and the model maps exactly the keys
    /// of the entries to their values.
    pub closed spec fn wf(&self) -> bool {
        &&& forall|i: int, j: int|
            0 <= i < j < self.entries@.len() ==> (#[trigger] self.entries@[i]).0@
                != (#[trigger] self.entries@[j]).0@
        &&& forall|i: int|
            0 <= i < self.entries@.len() ==> self.model@.contains_key(
                (#[trigger] self.entries@[i]).0@,
            ) && self.model@[self.entries@[i].0@] == self.entries@[i].1@
        &&& forall|k: Seq<char>|
            #[trigger] self.model@.contains_key(k) ==> exists|i: int|
                0 <= i < self.entries@.len() && (#[trigger] self.entries@[i]).0@ == k
    }

    pub closed spec fn view(&self) -> Map<Seq<char>, CfgDataView> {
        self.model@
    }

    /// A map with no keys.
    pub fn new() -> (r: ConfigMap)
        ensures
            r.wf(),
            r@ == Map::<Seq<char>, CfgDataView>::empty(),
    {
        ConfigMap { entries: Vec::new(), model: Ghost(Map::empty()) }
    }

    /// The number of keys.
    pub fn len(&self) -> (r: usize)
        requires
            self.wf(),
        ensures
            r == self@.len(),
    {
        proof {
            self.lemma_len();
        }
        self.entries.len()
    }

    proof fn lemma_len(&self)
        requires
            self.wf(),
        ensures
            self.model@.dom().finite(),
            self.model@.len() == self.entries@.len(),
    {
        let keys = self.entries@.map_values(|e: (String, CfgData)| e.0@);
        assert forall|i: int, j: int|
            0 <= i < keys.len() && 0 <= j < keys.len() && i != j implies keys[i] != keys[j] by {
            if i < j {
                assert(self.entries@[i].0@ != self.entries@[j].0@);
            } else {
                assert(self.entries@[j].0@ != self.entries@[i].0@);
            }
        }
        assert(keys.no_duplicates());
        keys.unique_seq_to_set();
        assert(self.model@.dom() =~= keys.to_set()) by {
            assert forall|k: Seq<char>| self.model@.dom().contains(k) implies keys.to_set().contains(
                k,
            ) by {
                let i = choose|i: int|
                    0 <= i < self.entries@.len() && (#[trigger] self.entries@[i]).0@ == k;
                assert(keys[i] == k);
            }
            assert forall|k: Seq<char>| keys.to_set().contains(k) implies self.model@.dom().contains(
                k,
            ) by {
                let i = choose|i: int| 0 <= i < keys.len() && keys[i] == k;
                assert(self.entries@[i].0@ == k);
            }
        }
    }

    /// The value of `key`, where the map holds it.
    pub fn get(&self, key: &str) -> (r: Option<&CfgData>)
        requires
            self.wf(),
        ensures
            r is Some <==> self@.contains_key(key@),
            r is Some ==> r->0@ == self@[key@],
    {
        let k = String::from_str(key);
        let mut i: usize = 0;
        while i < self.entries.len()
            invariant
                self.wf(),
                k@ == key@,
                forall|j: int| 0 <= j < i ==> (#[trigger] self.entries@[j]).0@ != key@,
            decreases self.entries.len() - i,
        {
            if self.entries[i].0 == k {
                return Some(&self.entries[i].1);
            }
            i = i + 1;
        }
        None
    }

    /// Sets the value of `key` to `val`, replacing any earlier value.
    pub fn insert(&mut self, key: String, val: CfgData)
        requires
            old(self).wf(),
        ensures
            final(self).wf(),
            final(self)@ == old(self)@.insert(key@, val@),
    {
        let ghost k = key@;
        let ghost v = val@;
        let mut i: usize = 0;
        while i < self.entries.len()
            invariant
                self.wf(),
                k == key@,
                i <= self.entries@.len(),
                forall|j: int| 0 <= j < i ==> (#[trigger] self.entries@[j]).0@ != k,
            ensures
                i <= self.entries@.len(),
                i < self.entries@.len() ==> self.entries@[i as int].0@ == k,
                forall|j: int| 0 <= j < i ==> (#[trigger] self.entries@[j]).0@ != k,
            decreases self.entries.len() - i,
        {
            if self.entries[i].0 == key {
                break;
            }
            i = i + 1;
        }
        let ghost new_model = self.model@.insert(k, v);
        let ghost old_entries = self.entries@;
        let ghost old_model = self.model@;
        if i < self.entries.len() {
            self.entries.set(i, (key, val));
            self.model = Ghost(new_model);
            assert forall|j: int|
                0 <= j < self.entries@.len() && j != i implies (#[trigger] self.entries@[j])
                == old_entries[j] by {}
            assert forall|k2: Seq<char>| #[trigger] self.model@.contains_key(k2) implies exists|
                j: int,
            | 0 <= j < self.entries@.len() && (#[trigger] self.entries@[j]).0@ == k2 by {
                if k2 == k {
                    assert(self.entries@[i as int].0@ == k2);
                } else {
                    assert(old_model.contains_key(k2));
                    let j = choose|j: int|
                        0 <= j < old_entries.len() && (#[trigger] old_entries[j]).0@ == k2;
                    assert(j != i);
                    assert(self.entries@[j].0@ == k2);
                }
            }
        } else {
            self.entries.push((key, val));
            self.model = Ghost(new_model);
            assert forall|j: int| 0 <= j < old_entries.len() implies (#[trigger] self.entries@[j])
                == old_entries[j] by {}
            assert forall|k2: Seq<char>| #[trigger] self.model@.contains_key(k2) implies exists|
                j: int,
            | 0 <= j < self.entries@.len() && (#[trigger] self.entries@[j]).0@ == k2 by {
                if k2 == k {
                    assert(self.entries@[i as int].0@ == k2);
                } else {
                    assert(old_model.contains_key(k2));
                    let j = choose|j: int|
                        0 <= j < old_entries.len() && (#[trigger] old_entries[j]).0@ == k2;
                    assert(self.entries@[j].0@ == k2);
                }
            }
        }
        assert(self.model@ == old(self)@.insert(k, v));
    }

    /// Reads one line into the map: the entry that the line gives, if any,
    /// replaces any earlier value of its key. A line with several `=` gives
    /// its key the value as it stands after the last segment.
    pub fn apply_line(&mut self, line: &str)
        requires
            old(self).wf(),
        ensures
            final(self).wf(),
            final(self)@ == apply_line(old(self)@, line@),
    {
        match parse_line(line) {
            Some((k, v)) => self.insert(k, v),
            None => {},
        }
    }

    /// The entries of the map, each key once.
    pub fn into_entries(self) -> (r: Vec<(String, CfgData)>)
        requires
            self.wf(),
        ensures
            forall|i: int, j: int| 0 <= i < j < r@.len() ==> (#[trigger] r@[i]).0@ != (#[trigger] r@[j]).0@,
            forall|i: int|
                0 <= i < r@.len() ==> self@.contains_key((#[trigger] r@[i]).0@) && self@[r@[i].0@] == r@[i].1@,
            forall|k: Seq<char>| #[trigger] self@.contains_key(k) ==> exists|i: int| 0 <= i < r@.len() && (#[trigger] r@[i]).0@ == k,
    {
        self.entries
    }
}

/// The map that `lines` give, read in order.
pub fn from_lines(lines: &Vec<String>) -> (r: ConfigMap)
    ensures
        r.wf(),
        r@ == config_of(lines@.map_values(|l: String| l@)),
{
    let ghost all = lines@.map_values(|l: String| l@);
    let mut m = ConfigMap::new();
    let mut i: usize = 0;
    while i < lines.len()
        invariant
            i <= lines@.len(),
            all == lines@.map_values(|l: String| l@),
            m.wf(),
            m@ == config_of(all.take(i as int)),
        decreases lines.len() - i,
    {
        m.apply_line(lines[i].as_str());
        assert(all.take(i + 1).drop_last() =~= all.take(i as int));
        i = i + 1;
    }
    assert(all.take(i as int) =~= all);
    m
}

/// Without a separator there is one field: the whole text.
pub proof fn lemma_split_on_no_sep(s: Seq<char>, sep: char)
    requires
        !has_char(s, sep),
    ensures
        split_on(s, sep) == seq![s],
    decreases s.len(),
{
    if s.len() > 0 {
        let p = s.drop_last();
        assert(!has_char(p, sep)) by {
            if has_char(p, sep) {
                let i = choose|i: int| 0 <= i < p.len() && p[i] == sep;
                assert(s[i] == sep);
            }
        }
        lemma_split_on_no_sep(p, sep);
        assert(s.last() != sep);
        assert(p.push(s.last()) =~= s);
        assert(split_on(s, sep) =~= seq![s]);
    } else {
        assert(s =~= Seq::<char>::empty());
    }
}

} // verus!
