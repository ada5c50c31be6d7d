//! Laws of the parser, stated over the models that its functions' contracts
//! use and proved from them.
use vstd::prelude::*;
use crate::config::{
    CfgDataView, all_numbers, apply_segment, config_of, empty_value, fold_segments,
    lemma_split_on_no_sep, line_entry, subitems,
};
use crate::number::{is_digit, is_exp_mark, is_exponent, is_mantissa, is_number, is_sign, is_word};
use crate::text::{
    before_first, has_char, is_space, lemma_before_first, split_on, trim, trim_end, trim_start,
};

verus! {

/// Every character of `w` is whitespace.
pub open spec fn all_space(w: Seq<char>) -> bool {
    forall|i: int| 0 <= i < w.len() ==> is_space(#[trigger] w[i])
}

/// The texts of `items` with `sep` between each two of them.
pub open spec fn join(items: Seq<Seq<char>>, sep: char) -> Seq<char>
    decreases items.len(),
{
    if items.len() <= 1 {
        if items.len() == 0 {
            Seq::empty()
        } else {
            items[0]
        }
    } else {
        join(items.drop_last(), sep).push(sep) + items.last()
    }
}

proof fn lemma_split_sep_append(a: Seq<char>, b: Seq<char>, sep: char)
    requires
        !has_char(b, sep),
    ensures
        split_on(a.push(sep) + b, sep) == split_on(a, sep).push(b),
    decreases b.len(),
{
    let s = a.push(sep) + b;
    if b.len() == 0 {
        assert(s =~= a.push(sep));
        assert(s.drop_last() =~= a);
        assert(b =~= Seq::<char>::empty());
    } else {
        let b2 = b.drop_last();
        assert(!has_char(b2, sep)) by {
            if has_char(b2, sep) {
                let i = choose|i: int| 0 <= i < b2.len() && b2[i] == sep;
                assert(b[i] == sep);
            }
        }
        lemma_split_sep_append(a, b2, sep);
        assert(s.drop_last() =~= a.push(sep) + b2);
        assert(s.last() == b.last());
        assert(b.last() != sep);
        assert(b2.push(b.last()) =~= b);
        assert(split_on(s, sep) =~= split_on(a, sep).push(b));
    }
}

proof fn lemma_split_join(items: Seq<Seq<char>>, sep: char)
    requires
        items.len() >= 1,
        forall|i: int| 0 <= i < items.len() ==> !has_char(#[trigger] items[i], sep),
    ensures
        split_on(join(items, sep), sep) == items,
    decreases items.len(),
{
    if items.len() == 1 {
        lemma_split_on_no_sep(items[0], sep);
        assert(seq![items[0]] =~= items);
    } else {
        let p = items.drop_last();
        assert(forall|i: int| 0 <= i < p.len() ==> #[trigger] p[i] == items[i]);
        lemma_split_join(p, sep);
        lemma_split_sep_append(join(p, sep), items.last(), sep);
        assert(p.push(items.last()) =~= items);
    }
}

proof fn lemma_join_has_sep(items: Seq<Seq<char>>, sep: char)
    requires
        items.len() >= 2,
    ensures
        has_char(join(items, sep), sep),
{
    let j = join(items.drop_last(), sep);
    assert((j.push(sep) + items.last())[j.len() as int] == sep);
}

proof fn lemma_join_no_char(items: Seq<Seq<char>>, sep: char, c: char)
    requires
        sep != c,
        forall|i: int| 0 <= i < items.len() ==> !has_char(#[trigger] items[i], c),
    ensures
        !has_char(join(items, sep), c),
    decreases items.len(),
{
    if items.len() == 1 {
        assert(!has_char(items[0], c));
    } else if items.len() > 1 {
        let p = items.drop_last();
        assert(forall|i: int| 0 <= i < p.len() ==> #[trigger] p[i] == items[i]);
        lemma_join_no_char(p, sep, c);
        let j = join(p, sep);
        let l = items.last();
        assert(!has_char(l, c));
        let s = j.push(sep) + l;
        assert forall|i: int| 0 <= i < s.len() implies s[i] != c by {
            if i < j.len() {
                assert(s[i] == j[i]);
            } else if i > j.len() {
                assert(s[i] == l[i - j.len() - 1]);
            }
        }
    }
}

proof fn lemma_join_ends(items: Seq<Seq<char>>, sep: char)
    requires
        items.len() >= 1,
        items[0].len() > 0,
        items.last().len() > 0,
    ensures
        join(items, sep).len() > 0,
        join(items, sep)[0] == items[0][0],
        join(items, sep).last() == items.last().last(),
    decreases items.len(),
{
    if items.len() > 1 {
        let p = items.drop_last();
        let j = join(p, sep);
        assert(j.len() > 0 && j[0] == items[0][0]) by {
            if p.len() == 1 {
                assert(j == items[0]);
            } else {
                lemma_join_first(p, sep);
            }
        }
        assert((j.push(sep) + items.last())[0] == j[0]);
    }
}

proof fn lemma_join_first(items: Seq<Seq<char>>, sep: char)
    requires
        items.len() >= 1,
        items[0].len() > 0,
    ensures
        join(items, sep).len() > 0,
        join(items, sep)[0] == items[0][0],
    decreases items.len(),
{
    if items.len() > 1 {
        let p = items.drop_last();
        lemma_join_first(p, sep);
        let j = join(p, sep);
        assert((j.push(sep) + items.last())[0] == j[0]);
    }
}

proof fn lemma_trim_start_padded(w: Seq<char>, x: Seq<char>)
    requires
        all_space(w),
        x.len() > 0,
        !is_space(x[0]),
    ensures
        trim_start(w + x) == x,
    decreases w.len(),
{
    if w.len() == 0 {
        assert(w + x =~= x);
    } else {
        assert((w + x)[0] == w[0]);
        assert((w + x).drop_first() =~= w.drop_first() + x);
        lemma_trim_start_padded(w.drop_first(), x);
    }
}

proof fn lemma_trim_end_padded(x: Seq<char>, w: Seq<char>)
    requires
        all_space(w),
        x.len() > 0,
        !is_space(x.last()),
    ensures
        trim_end(x + w) == x,
    decreases w.len(),
{
    if w.len() == 0 {
        assert(x + w =~= x);
    } else {
        assert((x + w).last() == w.last());
        assert((x + w).drop_last() =~= x + w.drop_last());
        lemma_trim_end_padded(x, w.drop_last());
    }
}

/// Whitespace around a text that starts and ends with other characters is
/// what trimming takes away.
proof fn lemma_trim_padded(w1: Seq<char>, x: Seq<char>, w2: Seq<char>)
    requires
        all_space(w1),
        all_space(w2),
        x.len() > 0,
        !is_space(x[0]),
        !is_space(x.last()),
    ensures
        trim(w1 + x + w2) == x,
{
    assert((x + w2)[0] == x[0]);
    assert(w1 + x + w2 =~= w1 + (x + w2));
    lemma_trim_start_padded(w1, x + w2);
    lemma_trim_end_padded(x, w2);
}

proof fn lemma_no_space_char(w: Seq<char>, c: char)
    requires
        all_space(w),
        !is_space(c),
    ensures
        !has_char(w, c),
{
    if has_char(w, c) {
        let i = choose|i: int| 0 <= i < w.len() && w[i] == c;
        assert(is_space(w[i]));
    }
}

proof fn lemma_concat_no_char(a: Seq<char>, b: Seq<char>, c: char)
    requires
        !has_char(a, c),
        !has_char(b, c),
    ensures
        !has_char(a + b, c),
{
    if has_char(a + b, c) {
        let i = choose|i: int| 0 <= i < (a + b).len() && (a + b)[i] == c;
        if i < a.len() {
            assert(a[i] == c);
        } else {
            assert(b[i - a.len()] == c);
        }
    }
}

/// A number text holds no comma.
proof fn lemma_number_no_comma(s: Seq<char>)
    requires
        is_number(s),
    ensures
        !has_char(s, ','),
{
    let u = if s.len() > 0 && is_sign(s[0]) {
        s.drop_first()
    } else {
        s
    };
    assert(!has_char(u, ',')) by {
        if has_char(u, ',') {
            let i = choose|i: int| 0 <= i < u.len() && u[i] == ',';
            if is_word(u, seq!['i', 'n', 'f'], seq!['I', 'N', 'F']) {
                assert(u[i] == seq!['i', 'n', 'f'][i] || u[i] == seq!['I', 'N', 'F'][i]);
            } else if is_word(
                u,
                seq!['i', 'n', 'f', 'i', 'n', 'i', 't', 'y'],
                seq!['I', 'N', 'F', 'I', 'N', 'I', 'T', 'Y'],
            ) {
                assert(u[i] == seq!['i', 'n', 'f', 'i', 'n', 'i', 't', 'y'][i] || u[i]
                    == seq!['I', 'N', 'F', 'I', 'N', 'I', 'T', 'Y'][i]);
            } else if is_word(u, seq!['n', 'a', 'n'], seq!['N', 'A', 'N']) {
                assert(u[i] == seq!['n', 'a', 'n'][i] || u[i] == seq!['N', 'A', 'N'][i]);
            } else if is_mantissa(u) {
                assert(is_digit(u[i]) || u[i] == '.');
            } else {
                let k = choose|k: int|
                    0 <= k < u.len() && is_exp_mark(#[trigger] u[k]) && is_mantissa(u.take(k))
                        && is_exponent(u.skip(k + 1));
                if i < k {
                    assert(u.take(k)[i] == u[i]);
                } else if i > k {
                    let e = u.skip(k + 1);
                    assert(e[i - k - 1] == u[i]);
                    if e.len() > 0 && is_sign(e[0]) {
                        if i - k - 1 > 0 {
                            assert(e.drop_first()[i - k - 2] == u[i]);
                        }
                    }
                }
            }
        }
    }
    if s.len() > 0 && is_sign(s[0]) {
        if has_char(s, ',') {
            let i = choose|i: int| 0 <= i < s.len() && s[i] == ',';
            if i > 0 {
                assert(u[i - 1] == s[i]);
            }
        }
    }
}

/// A line `key = value` without `#` and with a single `=` gives `key`,
/// trimmed, the value read from the trimmed `value` alone.
proof fn lemma_simple_line(key: Seq<char>, v: Seq<char>)
    requires
        !has_char(key, '='),
        !has_char(key, '#'),
        !has_char(v, '='),
        !has_char(v, '#'),
    ensures
        line_entry(key + seq!['='] + v) == Some(
            (trim(key), apply_segment(empty_value(), trim(v))),
        ),
{
    let line = key + seq!['='] + v;
    assert(line =~= key.push('=') + v);
    assert(!has_char(line, '#')) by {
        if has_char(line, '#') {
            let i = choose|i: int| 0 <= i < line.len() && line[i] == '#';
            if i < key.len() {
                assert(key[i] == '#');
            } else if i > key.len() {
                assert(v[i - key.len() - 1] == '#');
            }
        }
    }
    lemma_before_first(line, '#', line.len() as int);
    assert(line.subrange(0, line.len() as int) =~= line);
    lemma_split_sep_append(key, v, '=');
    lemma_split_on_no_sep(key, '=');
    assert(before_first(line, '#') == line);
    let fields = split_on(line, '=');
    assert(fields =~= seq![key, v]);
    assert(fields.drop_first() =~= seq![v]);
    assert(seq![v].drop_last() =~= Seq::<Seq<char>>::empty());
    assert(fold_segments(Seq::<Seq<char>>::empty()) == empty_value());
    assert(fold_segments(seq![v]) == apply_segment(empty_value(), trim(v)));
}

/// A line `key = n1, n2, ..., nm` whose items are all number texts gives `key`
/// (trimmed) the items, trimmed and in order, as its numbers, and an empty
/// string. The whitespace around the list stands in `w1` and `w2`, so that any
/// such line has this form.
pub proof fn law_number_list(
    lines: Seq<Seq<char>>,
    key: Seq<char>,
    w1: Seq<char>,
    items: Seq<Seq<char>>,
    w2: Seq<char>,
)
    requires
        !has_char(key, '='),
        !has_char(key, '#'),
        all_space(w1),
        all_space(w2),
        items.len() >= 1,
        items[0].len() > 0,
        !is_space(items[0][0]),
        items.last().len() > 0,
        !is_space(items.last().last()),
        forall|i: int|
            0 <= i < items.len() ==> !has_char(#[trigger] items[i], ',') && !has_char(
                items[i],
                '=',
            ) && !has_char(items[i], '#') && is_number(trim(items[i])),
    ensures
        ({
            let m = config_of(lines.push(key + seq!['='] + (w1 + join(items, ',') + w2)));
            &&& m.contains_key(trim(key))
            &&& m[trim(key)] == (CfgDataView {
                numeric: items.map_values(|t: Seq<char>| trim(t)),
                string: Seq::empty(),
            })
        }),
{
    let j = join(items, ',');
    let v = w1 + j + w2;
    let line = key + seq!['='] + v;
    lemma_value_text(w1, items, w2);
    lemma_simple_line(key, v);
    assert(lines.push(line).drop_last() =~= lines);
    if items.len() == 1 {
        assert(j == items[0]);
        assert(trim(j) == j);
        lemma_number_no_comma(j);
        assert(empty_value().numeric.push(j) =~= items.map_values(|t: Seq<char>| trim(t)));
    } else {
        lemma_join_has_sep(items, ',');
        lemma_split_join(items, ',');
        assert(all_numbers(subitems(j)));
        assert(empty_value().numeric + subitems(j) =~= items.map_values(
            |t: Seq<char>| trim(t),
        ));
    }
}

/// The facts about a padded list text that the laws on lists use.
proof fn lemma_value_text(w1: Seq<char>, items: Seq<Seq<char>>, w2: Seq<char>)
    requires
        all_space(w1),
        all_space(w2),
        items.len() >= 1,
        items[0].len() > 0,
        !is_space(items[0][0]),
        items.last().len() > 0,
        !is_space(items.last().last()),
        forall|i: int|
            0 <= i < items.len() ==> !has_char(#[trigger] items[i], '=') && !has_char(
                items[i],
                '#',
            ),
    ensures
        trim(w1 + join(items, ',') + w2) == join(items, ','),
        !has_char(w1 + join(items, ',') + w2, '='),
        !has_char(w1 + join(items, ',') + w2, '#'),
{
    let j = join(items, ',');
    lemma_join_ends(items, ',');
    lemma_trim_padded(w1, j, w2);
    lemma_join_no_char(items, ',', '=');
    lemma_join_no_char(items, ',', '#');
    lemma_no_space_char(w1, '=');
    lemma_no_space_char(w1, '#');
    lemma_no_space_char(w2, '=');
    lemma_no_space_char(w2, '#');
    lemma_concat_no_char(w1, j, '=');
    lemma_concat_no_char(w1 + j, w2, '=');
    lemma_concat_no_char(w1, j, '#');
    lemma_concat_no_char(w1 + j, w2, '#');
}

/// A line `key = v` whose trimmed `v` is a number text gives `key` (trimmed)
/// that one number and an empty string.
pub proof fn law_single_number(lines: Seq<Seq<char>>, key: Seq<char>, v: Seq<char>)
    requires
        !has_char(key, '='),
        !has_char(key, '#'),
        !has_char(v, '='),
        !has_char(v, '#'),
        is_number(trim(v)),
    ensures
        ({
            let m = config_of(lines.push(key + seq!['='] + v));
            &&& m.contains_key(trim(key))
            &&& m[trim(key)] == (CfgDataView { numeric: seq![trim(v)], string: Seq::empty() })
        }),
{
    lemma_simple_line(key, v);
    lemma_number_no_comma(trim(v));
    assert(lines.push(key + seq!['='] + v).drop_last() =~= lines);
    assert(empty_value().numeric.push(trim(v)) =~= seq![trim(v)]);
}

/// A line `key = v` whose trimmed `v` is not a number text gives `key`
/// (trimmed) no numbers and the trimmed `v` as its string, unless `v` is a
/// comma list of number texts.
pub proof fn law_single_text(lines: Seq<Seq<char>>, key: Seq<char>, v: Seq<char>)
    requires
        !has_char(key, '='),
        !has_char(key, '#'),
        !has_char(v, '='),
        !has_char(v, '#'),
        !is_number(trim(v)),
        !(has_char(trim(v), ',') && all_numbers(subitems(trim(v)))),
    ensures
        ({
            let m = config_of(lines.push(key + seq!['='] + v));
            &&& m.contains_key(trim(key))
            &&& m[trim(key)] == (CfgDataView { numeric: Seq::empty(), string: trim(v) })
        }),
{
    lemma_simple_line(key, v);
    assert(lines.push(key + seq!['='] + v).drop_last() =~= lines);
}

/// A comma list `key = i1, ..., im` with an item that is not a number text
/// gives `key` (trimmed) no numbers and the whole list text as its string.
pub proof fn law_list_fallback(
    lines: Seq<Seq<char>>,
    key: Seq<char>,
    w1: Seq<char>,
    items: Seq<Seq<char>>,
    w2: Seq<char>,
    bad: int,
)
    requires
        !has_char(key, '='),
        !has_char(key, '#'),
        all_space(w1),
        all_space(w2),
        items.len() >= 2,
        items[0].len() > 0,
        !is_space(items[0][0]),
        items.last().len() > 0,
        !is_space(items.last().last()),
        forall|i: int|
            0 <= i < items.len() ==> !has_char(#[trigger] items[i], ',') && !has_char(
                items[i],
                '=',
            ) && !has_char(items[i], '#'),
        0 <= bad < items.len(),
        !is_number(trim(items[bad])),
    ensures
        ({
            let m = config_of(lines.push(key + seq!['='] + (w1 + join(items, ',') + w2)));
            &&& m.contains_key(trim(key))
            &&& m[trim(key)] == (CfgDataView { numeric: Seq::empty(), string: join(items, ',') })
        }),
{
    let j = join(items, ',');
    let v = w1 + j + w2;
    lemma_value_text(w1, items, w2);
    lemma_simple_line(key, v);
    assert(lines.push(key + seq!['='] + v).drop_last() =~= lines);
    lemma_join_has_sep(items, ',');
    lemma_split_join(items, ',');
    assert(subitems(j)[bad] == trim(items[bad]));
}

/// A line without `=` leaves the map as it was.
pub proof fn law_no_equals(lines: Seq<Seq<char>>, line: Seq<char>)
    requires
        !has_char(line, '='),
    ensures
        config_of(lines.push(line)) == config_of(lines),
{
    let body = before_first(line, '#');
    lemma_before_first_is_prefix(line, '#');
    assert(!has_char(body, '=')) by {
        if has_char(body, '=') {
            let i = choose|i: int| 0 <= i < body.len() && body[i] == '=';
            assert(line[i] == '=');
        }
    }
    lemma_split_on_no_sep(body, '=');
    assert(lines.push(line).drop_last() =~= lines);
}

proof fn lemma_before_first_is_prefix(s: Seq<char>, c: char)
    ensures
        exists|r: int| 0 <= r <= s.len() && before_first(s, c) == s.subrange(0, r),
    decreases s.len(),
{
    if s.len() == 0 {
        assert(before_first(s, c) == s.subrange(0, 0));
    } else if s[0] == c {
        assert(before_first(s, c) =~= s.subrange(0, 0));
    } else {
        lemma_before_first_is_prefix(s.drop_first(), c);
        let r = choose|r: int|
            0 <= r <= s.drop_first().len() && before_first(s.drop_first(), c)
                == s.drop_first().subrange(0, r);
        assert(before_first(s, c) =~= s.subrange(0, r + 1));
    }
}

/// Text from the first `#` of a line on has no effect: the line reads as the
/// text before it.
pub proof fn law_comment_ignored(
    lines: Seq<Seq<char>>,
    text: Seq<char>,
    comment: Seq<char>,
)
    requires
        !has_char(text, '#'),
    ensures
        config_of(lines.push(text + seq!['#'] + comment)) == config_of(lines.push(text)),
{
    let line = text + seq!['#'] + comment;
    assert(line[text.len() as int] == '#');
    assert forall|j: int| 0 <= j < text.len() implies line[j] != '#' by {
        assert(line[j] == text[j]);
        if text[j] == '#' {
            assert(has_char(text, '#'));
        }
    }
    lemma_before_first(line, '#', text.len() as int);
    assert(line.subrange(0, text.len() as int) =~= text);
    lemma_before_first(text, '#', text.len() as int);
    assert(text.subrange(0, text.len() as int) =~= text);
    assert(line_entry(line) == line_entry(text));
    assert(lines.push(line).drop_last() =~= lines);
    assert(lines.push(text).drop_last() =~= lines);
}

/// Of two lines with the same key, the later one decides the key's value: the
/// earlier one leaves no trace.
pub proof fn law_last_line_wins(lines: Seq<Seq<char>>, first: Seq<char>, second: Seq<char>)
    requires
        line_entry(first) is Some,
        line_entry(second) is Some,
        (line_entry(first)->0).0 == (line_entry(second)->0).0,
    ensures
        config_of(lines.push(first).push(second)) == config_of(lines.push(second)),
        config_of(lines.push(first).push(second))[(line_entry(second)->0).0] == (line_entry(
            second,
        )->0).1,
{
    let both = lines.push(first).push(second);
    assert(both.drop_last() =~= lines.push(first));
    assert(lines.push(first).drop_last() =~= lines);
    assert(lines.push(second).drop_last() =~= lines);
    let k = (line_entry(first)->0).0;
    let v1 = (line_entry(first)->0).1;
    let v2 = (line_entry(second)->0).1;
    assert(line_entry(first) == Some((k, v1)));
    assert(line_entry(second) == Some((k, v2)));
    assert(config_of(lines.push(first)) == config_of(lines).insert(k, v1));
    assert(config_of(both) == config_of(lines).insert(k, v1).insert(k, v2));
    assert(config_of(lines.push(second)) == config_of(lines).insert(k, v2));
    assert(config_of(lines).insert(k, v1).insert(k, v2) =~= config_of(lines).insert(k, v2));
}

} // verus!
