//! The configuration loader: parses flat `key = value` text into a mapping
//! from trimmed keys to trimmed values.

use vstd::prelude::*;

use crate::kv::{distinct_keys, kv_map, lemma_kv_map_contains, lemma_kv_map_index,
    lemma_kv_map_len, lemma_kv_map_remove};
use crate::text::{find_char, is_space, is_space_char, lemma_find_char, lemma_trim_left_contains,
    lemma_trim_right_contains, lemma_trim_right_keeps_head, lemma_trim_seq_idempotent,
    lemma_trim_seq_subrange, str_eq, trim_left, trim_seq};

verus! {

/// What a single configuration line denotes: a key/value pair, or nothing
/// for a blank line, a comment, or a line with no `=` or an empty key.
///
/// A line is trimmed, skipped when it is empty or begins with `#` or `;`,
/// and otherwise split at its first `=`; the key is the trimmed text before
/// that `=` (it must be nonempty), the value the trimmed text after it.
pub open spec fn parse_line_spec(line: Seq<char>) -> Option<(Seq<char>, Seq<char>)> {
    let t = trim_seq(line);
    if t.len() == 0 || t[0] == '#' || t[0] == ';' {
        None
    } else if find_char(t, '=') == -1 {
        None
    } else {
        let i = find_char(t, '=');
        let key = trim_seq(t.subrange(0, i));
        let value = trim_seq(t.subrange(i + 1, t.len() as int));
        if key.len() == 0 {
            None
        } else {
            Some((key, value))
        }
    }
}

/// The mapping after one line is applied to `m`: a parsed pair is inserted,
/// overwriting any earlier value of its key; a skipped line changes nothing.
pub open spec fn apply_line(
    m: Map<Seq<char>, Seq<char>>,
    line: Seq<char>,
) -> Map<Seq<char>, Seq<char>> {
    match parse_line_spec(line) {
        Some(kv) => m.insert(kv.0, kv.1),
        None => m,
    }
}

/// The mapping after every line of `lines` is applied to `m`, in order.
pub open spec fn loaded_map(
    m: Map<Seq<char>, Seq<char>>,
    lines: Seq<Seq<char>>,
) -> Map<Seq<char>, Seq<char>>
    decreases lines.len(),
{
    if lines.len() == 0 {
        m
    } else {
        apply_line(loaded_map(m, lines.drop_last()), lines.last())
    }
}

/// The lines of `s`: the segments between `\n` characters. Text without a
/// final terminator still yields its last line; empty text yields one empty
/// line (which no parse accepts).
pub open spec fn line_seqs(s: Seq<char>) -> Seq<Seq<char>>
    decreases s.len(),
    via line_seqs_decreases
{
    let i = find_char(s, '\n');
    if i == -1 {
        seq![s]
    } else {
        seq![s.subrange(0, i)] + line_seqs(s.subrange(i + 1, s.len() as int))
    }
}

#[via_fn]
proof fn line_seqs_decreases(s: Seq<char>) {
    lemma_find_char(s, '\n');
}

/// Splitting at the first `\n` yields the text before it as the first line,
/// followed by the lines of the text after it.
proof fn lemma_line_seqs_split(s: Seq<char>, i: int)
    requires
        0 <= i < s.len(),
        s[i] == '\n',
        forall|j: int| 0 <= j < i ==> s[j] != '\n',
    ensures
        line_seqs(s) == seq![s.subrange(0, i)] + line_seqs(s.subrange(i + 1, s.len() as int)),
{
    lemma_find_char(s, '\n');
    assert(s.contains('\n'));
    let f = find_char(s, '\n');
    assert(f == i);
}

/// Text without a `\n` is a single line.
proof fn lemma_line_seqs_whole(s: Seq<char>)
    requires
        forall|j: int| 0 <= j < s.len() ==> s[j] != '\n',
    ensures
        line_seqs(s) == seq![s],
{
    lemma_find_char(s, '\n');
    if s.contains('\n') {
        let j = choose|j: int| 0 <= j < s.len() && s[j] == '\n';
        assert(s[j] != '\n');
    }
}

/// A parsed configuration: a mapping from keys to values, abstracted as a
/// `Map<Seq<char>, Seq<char>>`.
#[derive(Debug)]
pub struct SysctlConfig {
    settings: Vec<(String, String)>,
}

impl View for SysctlConfig {
    type V = Map<Seq<char>, Seq<char>>;

    closed spec fn view(&self) -> Map<Seq<char>, Seq<char>> {
        kv_map(self.settings@)
    }
}

impl SysctlConfig {
    /// The configuration's internal invariant: no key is stored twice.
    pub closed spec fn wf(&self) -> bool {
        distinct_keys(self.settings@)
    }

    /// An empty configuration.
    pub fn new() -> (config: Self)
        ensures
            config.wf(),
            config@ == Map::<Seq<char>, Seq<char>>::empty(),
    {
        let config = SysctlConfig { settings: Vec::new() };
        proof {
            assert(config.settings@.len() == 0);
        }
        config
    }

    /// Inserts a pair, overwriting any earlier value of the same key.
    fn insert_pair(&mut self, key: String, value: String)
        requires
            old(self).wf(),
        ensures
            final(self).wf(),
            final(self)@ == old(self)@.insert(key@, value@),
    {
        let n = self.settings.len();
        let mut i: usize = 0;
        while i < n
            invariant
                n == self.settings.len(),
                i <= n,
                self == old(self),
                self.wf(),
                forall|j: int| 0 <= j < i ==> self.settings@[j].0@ != key@,
            decreases n - i,
        {
            if str_eq(self.settings[i].0.as_str(), key.as_str()) {
                proof {
                    lemma_kv_map_remove(self.settings@, i as int);
                }
                let ghost removed = self.settings@.remove(i as int);
                self.settings.remove(i);
                self.settings.push((key, value));
                proof {
                    assert(self.settings@.drop_last() =~= removed);
                    assert(self@ == kv_map(removed).insert(key@, value@));
                    assert(kv_map(removed).insert(key@, value@) =~= old(self)@.insert(
                        key@,
                        value@,
                    ));
                    assert forall|a: int, b: int|
                        0 <= a < b < self.settings@.len() implies self.settings@[a].0@
                        != self.settings@[b].0@ by {
                        if b == self.settings@.len() - 1 {
                            if a < i {
                                assert(removed[a] == old(self).settings@[a]);
                                assert(old(self).settings@[a].0@ != old(self).settings@[i as int].0@);
                            } else {
                                assert(removed[a] == old(self).settings@[a + 1]);
                                assert(old(self).settings@[a + 1].0@ != old(
                                    self,
                                ).settings@[i as int].0@);
                            }
                        }
                    }
                }
                return;
            }
            i = i + 1;
        }
        proof {
            lemma_kv_map_contains(self.settings@, key@);
        }
        self.settings.push((key, value));
        proof {
            assert(self.settings@.drop_last() =~= old(self).settings@);
        }
    }

    /// Parses one line and, when it holds a `key = value` pair, records the
    /// pair; every other line leaves the configuration unchanged.
    pub fn parse_line(&mut self, line: &str)
        requires
            old(self).wf(),
        ensures
            final(self).wf(),
            match parse_line_spec(line@) {
                Some(kv) => final(self)@ == old(self)@.insert(kv.0, kv.1),
                None => final(self)@ == old(self)@,
            },
    {
        let n = line.unicode_len();
        let mut start: usize = 0;
        while start < n && is_space(line.get_char(start))
            invariant
                n == line@.len(),
                start <= n,
                forall|j: int| 0 <= j < start ==> is_space_char(line@[j]),
            decreases n - start,
        {
            start = start + 1;
        }
        if start == n {
            proof {
                lemma_trim_seq_subrange(line@, start as int, n as int);
                assert(line@.subrange(n as int, n as int) =~= Seq::<char>::empty());
            }
            return;
        }
        let mut end: usize = n;
        while is_space(line.get_char(end - 1))
            invariant
                n == line@.len(),
                start < end <= n,
                !is_space_char(line@[start as int]),
                forall|j: int| end <= j < n ==> is_space_char(line@[j]),
            decreases end,
        {
            end = end - 1;
        }
        proof {
            lemma_trim_seq_subrange(line@, start as int, end as int);
        }
        let ghost t = line@.subrange(start as int, end as int);
        let c0 = line.get_char(start);
        if c0 == '#' || c0 == ';' {
            proof {
                assert(t[0] == line@[start as int]);
            }
            return;
        }
        let mut eq: usize = start;
        while eq < end && line.get_char(eq) != '='
            invariant
                n == line@.len(),
                start <= eq <= end <= n,
                forall|j: int| start <= j < eq ==> line@[j] != '=',
            decreases end - eq,
        {
            eq = eq + 1;
        }
        if eq == end {
            proof {
                lemma_find_char(t, '=');
                assert(forall|j: int| 0 <= j < t.len() ==> t[j] == line@[start + j]);
                if t.contains('=') {
                    let j = choose|j: int| 0 <= j < t.len() && t[j] == '=';
                    assert(line@[start + j] == '=');
                }
            }
            return;
        }
        proof {
            lemma_find_char(t, '=');
            assert(t[eq - start] == '=');
            assert(t.contains('='));
            let f = find_char(t, '=');
            assert(f != -1);
            if f < eq - start {
                assert(t[f] == line@[start + f]);
                assert(line@[start + f] != '=');
            }
            assert(f == eq - start);
        }
        if eq == start {
            proof {
                assert(t.subrange(0, 0) =~= Seq::<char>::empty());
            }
            return;
        }
        let mut ke: usize = eq;
        while is_space(line.get_char(ke - 1))
            invariant
                n == line@.len(),
                start < ke <= eq <= n,
                !is_space_char(line@[start as int]),
                forall|j: int| ke <= j < eq ==> is_space_char(line@[j]),
            decreases ke,
        {
            ke = ke - 1;
        }
        let mut vs: usize = eq + 1;
        while vs < end && is_space(line.get_char(vs))
            invariant
                n == line@.len(),
                eq + 1 <= vs <= end <= n,
                forall|j: int| eq + 1 <= j < vs ==> is_space_char(line@[j]),
            decreases end - vs,
        {
            vs = vs + 1;
        }
        let key = line.substring_char(start, ke).to_owned();
        let value = line.substring_char(vs, end).to_owned();
        proof {
            let i = (eq - start) as int;
            let kseg = t.subrange(0, i);
            assert(kseg =~= line@.subrange(start as int, eq as int));
            lemma_trim_seq_subrange(kseg, 0, ke - start);
            assert(kseg.subrange(0, ke - start) =~= line@.subrange(start as int, ke as int));
            assert(key@ == trim_seq(kseg));
            let vseg = t.subrange(i + 1, t.len() as int);
            assert(vseg =~= line@.subrange(eq + 1, end as int));
            lemma_trim_seq_subrange(vseg, vs - eq - 1, vseg.len() as int);
            assert(vseg.subrange(vs - eq - 1, vseg.len() as int) =~= line@.subrange(
                vs as int,
                end as int,
            ));
            assert(value@ == trim_seq(vseg));
            assert(parse_line_spec(line@) == Some((key@, value@)));
        }
        self.insert_pair(key, value);
    }

    /// Splits `text` into newline-delimited lines and parses each in order;
    /// a later pair overwrites an earlier value of the same key.
    pub fn load(&mut self, text: &str)
        requires
            old(self).wf(),
        ensures
            final(self).wf(),
            final(self)@ == loaded_map(old(self)@, line_seqs(text@)),
    {
        let lines = split_lines(text);
        let ghost all = line_seqs(text@);
        let m = lines.len();
        let mut idx: usize = 0;
        while idx < m
            invariant
                m == lines.len(),
                idx <= m,
                lines.deep_view() == all,
                all == line_seqs(text@),
                self.wf(),
                self@ == loaded_map(old(self)@, all.subrange(0, idx as int)),
            decreases m - idx,
        {
            let ghost prefix = all.subrange(0, idx as int);
            self.parse_line(lines[idx].as_str());
            proof {
                let longer = all.subrange(0, idx + 1);
                assert(longer.drop_last() =~= prefix);
                assert(longer.last() == lines.deep_view()[idx as int]);
                assert(lines.deep_view()[idx as int] == lines@[idx as int]@);
            }
            idx = idx + 1;
        }
        proof {
            assert(all.subrange(0, m as int) =~= all);
        }
    }

    /// Looks a key up and returns its value, when the key is present.
    pub fn get<'a>(&'a self, key: &str) -> (r: Option<&'a String>)
        requires
            self.wf(),
        ensures
            match r {
                Some(v) => self@.contains_key(key@) && self@[key@] == v@,
                None => !self@.contains_key(key@),
            },
    {
        let n = self.settings.len();
        let mut i: usize = 0;
        while i < n
            invariant
                n == self.settings.len(),
                i <= n,
                self.wf(),
                forall|j: int| 0 <= j < i ==> self.settings@[j].0@ != key@,
            decreases n - i,
        {
            if str_eq(self.settings[i].0.as_str(), key) {
                proof {
                    lemma_kv_map_index(self.settings@, i as int);
                }
                return Some(&self.settings[i].1);
            }
            i = i + 1;
        }
        proof {
            lemma_kv_map_contains(self.settings@, key@);
        }
        None
    }

    /// The number of keys in the configuration.
    pub fn len(&self) -> (n: usize)
        requires
            self.wf(),
        ensures
            n == self@.len(),
    {
        proof {
            lemma_kv_map_len(self.settings@);
        }
        self.settings.len()
    }

    /// The stored pairs. Each key appears once and maps to its value.
    pub fn entries(&self) -> (r: &Vec<(String, String)>)
        requires
            self.wf(),
        ensures
            distinct_keys(r@),
            kv_map(r@) == self@,
    {
        &self.settings
    }
}

/// Splits `text` into its newline-delimited lines.
fn split_lines(text: &str) -> (lines: Vec<String>)
    ensures
        lines.deep_view() == line_seqs(text@),
{
    let n = text.unicode_len();
    let mut lines: Vec<String> = Vec::new();
    let mut start: usize = 0;
    let mut i: usize = 0;
    proof {
        assert(lines.deep_view() =~= Seq::<Seq<char>>::empty());
        assert(text@.subrange(0, n as int) =~= text@);
        assert(Seq::<Seq<char>>::empty() + line_seqs(text@) =~= line_seqs(text@));
    }
    while i < n
        invariant
            n == text@.len(),
            start <= i <= n,
            forall|j: int| start <= j < i ==> text@[j] != '\n',
            line_seqs(text@) == lines.deep_view() + line_seqs(
                text@.subrange(start as int, n as int),
            ),
        decreases n - i,
    {
        if text.get_char(i) == '\n' {
            let ghost before = lines.deep_view();
            let line = text.substring_char(start, i).to_owned();
            lines.push(line);
            proof {
                let rem = text@.subrange(start as int, n as int);
                lemma_line_seqs_split(rem, i - start);
                assert(rem.subrange(0, i - start) =~= text@.subrange(start as int, i as int));
                assert(rem.subrange(i - start + 1, rem.len() as int) =~= text@.subrange(
                    i + 1,
                    n as int,
                ));
                assert(lines.deep_view() =~= before.push(line@));
                assert(before + seq![line@] + line_seqs(text@.subrange(i + 1, n as int))
                    =~= lines.deep_view() + line_seqs(text@.subrange(i + 1, n as int)));
            }
            start = i + 1;
        }
        i = i + 1;
    }
    let ghost before = lines.deep_view();
    let line = text.substring_char(start, n).to_owned();
    lines.push(line);
    proof {
        lemma_line_seqs_whole(text@.subrange(start as int, n as int));
        assert(lines.deep_view() =~= before.push(line@));
        assert(before + seq![line@] =~= lines.deep_view());
    }
    lines
}

/// A line that a parse accepts has a nonempty key without `=`, and both its
/// key and its value carry no leading or trailing whitespace.
pub proof fn lemma_parse_line_trims(line: Seq<char>)
    ensures
        parse_line_spec(line) matches Some(kv) ==> {
            &&& kv.0 == trim_seq(kv.0)
            &&& kv.1 == trim_seq(kv.1)
            &&& kv.0.len() > 0
            &&& !kv.0.contains('=')
        },
{
    if parse_line_spec(line) is Some {
        let t = trim_seq(line);
        let i = find_char(t, '=');
        lemma_find_char(t, '=');
        let kseg = t.subrange(0, i);
        let vseg = t.subrange(i + 1, t.len() as int);
        lemma_trim_seq_idempotent(kseg);
        lemma_trim_seq_idempotent(vseg);
        let key = trim_seq(kseg);
        if key.contains('=') {
            lemma_trim_right_contains(trim_left(kseg), '=');
            lemma_trim_left_contains(kseg, '=');
            let j = choose|j: int| 0 <= j < kseg.len() && kseg[j] == '=';
            assert(t[j] == '=');
        }
    }
}

/// A line whose text after leading whitespace begins with `#` or `;` is a
/// comment: parsing it yields nothing, so it never enters a configuration.
pub proof fn lemma_comment_line_skipped(line: Seq<char>)
    requires
        trim_left(line).len() > 0,
        trim_left(line)[0] == '#' || trim_left(line)[0] == ';',
    ensures
        parse_line_spec(line) is None,
{
    assert(!is_space_char('#') && !is_space_char(';'));
    lemma_trim_right_keeps_head(trim_left(line));
}

/// Loading empty text adds nothing to a configuration.
pub proof fn lemma_empty_text_loads_nothing(m: Map<Seq<char>, Seq<char>>)
    ensures
        loaded_map(m, line_seqs(Seq::<char>::empty())) == m,
{
    let empty = Seq::<char>::empty();
    lemma_find_char(empty, '\n');
    let lines = line_seqs(empty);
    assert(lines == seq![empty]);
    assert(lines.drop_last() =~= Seq::<Seq<char>>::empty());
    assert(loaded_map(m, lines.drop_last()) == m);
    assert(trim_seq(empty) == empty);
    assert(parse_line_spec(empty) is None);
    assert(loaded_map(m, lines) == apply_line(loaded_map(m, lines.drop_last()), lines.last()));
}

} // verus!
