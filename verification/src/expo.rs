//! The line-oriented exposition format: one sample per line, shaped
//! `name{key="value",...} value [timestamp]`.  Splitting is right-anchored:
//! the last space separates the trailing numeric token, and when the two
//! trailing tokens are both numeric they are the value and the timestamp.
//! Comment lines (`#`) and blank lines are skipped, never errors.

use vstd::prelude::*;
use vstd::pervasive::VecAdditionalExecFns;
use vstd::string::StringExecFns;
use crate::strutil::{
    trim_spec, trim_chars, has_char, contains_char, last_pos, find_last, first_pos,
    first_pos_from, find_first, subvec, chars_to_string, str_to_chars, split_lines,
    split_lines_exec, lines_view,
};
use crate::numtext::{is_float_text, is_float_chars, dec_digits, u64_to_dec_chars};
use crate::error::VmCliError;

verus! {

/// One parsed sample.  The numeric tokens stay as text: the parser admits
/// them by the floating-point grammar and later stages truncate or copy
/// them, so no precision is lost in between.
#[derive(Debug, Clone, PartialEq, Eq)]
pub struct MetricSample {
    pub name: String,
    pub labels: Vec<(String, String)>,
    pub value: String,
    pub timestamp: Option<String>,
}

/// The mathematical model of a sample.
pub ghost struct SampleModel {
    pub name: Seq<char>,
    pub labels: Seq<(Seq<char>, Seq<char>)>,
    pub value: Seq<char>,
    pub timestamp: Option<Seq<char>>,
}

/// The label list as a sequence of character-sequence pairs.
pub open spec fn labels_view(l: Seq<(String, String)>) -> Seq<(Seq<char>, Seq<char>)> {
    l.map_values(|p: (String, String)| (p.0@, p.1@))
}

impl View for MetricSample {
    type V = SampleModel;

    open spec fn view(&self) -> SampleModel {
        SampleModel {
            name: self.name@,
            labels: labels_view(self.labels@),
            value: self.value@,
            timestamp: match self.timestamp {
                Some(t) => Some(t@),
                None => None,
            },
        }
    }
}

/// What parsing one line yields.
#[derive(Debug, Clone, PartialEq, Eq)]
pub enum LineKind {
    /// A comment or blank line.
    Skip,
    /// A well-formed sample.
    Sample(MetricSample),
    /// A malformed line.
    Invalid,
}

pub ghost enum LineModel {
    Skip,
    Sample(SampleModel),
    Invalid,
}

impl View for LineKind {
    type V = LineModel;

    open spec fn view(&self) -> LineModel {
        match self {
            LineKind::Skip => LineModel::Skip,
            LineKind::Sample(s) => LineModel::Sample(s@),
            LineKind::Invalid => LineModel::Invalid,
        }
    }
}

/// The reserved label key that carries the metric name.
pub open spec fn name_key() -> Seq<char> {
    seq!['_', '_', 'n', 'a', 'm', 'e', '_', '_']
}

/// One unquoting layer: a leading and trailing double quote are removed
/// together, and nothing else is unescaped.
pub open spec fn unquote(v: Seq<char>) -> Seq<char> {
    if v.len() >= 2 && v[0] == '"' && v[v.len() - 1] == '"' {
        v.subrange(1, v.len() - 1)
    } else {
        v
    }
}

/// `key=value` split at the first `=`; pieces without one carry no label.
pub open spec fn parse_label_piece(piece: Seq<char>) -> Option<(Seq<char>, Seq<char>)> {
    let q = first_pos(piece, '=');
    if 0 <= q < piece.len() {
        Some((piece.take(q), unquote(piece.skip(q + 1))))
    } else {
        None
    }
}

/// The comma-separated pieces of the label block.
pub open spec fn split_commas(s: Seq<char>) -> Seq<Seq<char>>
    decreases s.len(),
{
    let p = first_pos(s, ',');
    if 0 <= p < s.len() {
        seq![s.take(p)] + split_commas(s.skip(p + 1))
    } else {
        seq![s]
    }
}

/// Replaces the value under `k`, keeping the position of its first
/// occurrence, or appends the pair when `k` is new.
pub open spec fn assoc_set(
    l: Seq<(Seq<char>, Seq<char>)>,
    k: Seq<char>,
    v: Seq<char>,
) -> Seq<(Seq<char>, Seq<char>)>
    decreases l.len(),
{
    if l.len() == 0 {
        seq![(k, v)]
    } else if l[0].0 == k {
        seq![(k, v)] + l.skip(1)
    } else {
        seq![l[0]] + assoc_set(l.skip(1), k, v)
    }
}

/// Folds the label pieces into the name and the label list: a `__name__`
/// pair replaces the name, any other pair is set in the list.
pub open spec fn fold_labels(
    pieces: Seq<Seq<char>>,
    name: Seq<char>,
    acc: Seq<(Seq<char>, Seq<char>)>,
) -> (Seq<char>, Seq<(Seq<char>, Seq<char>)>)
    decreases pieces.len(),
{
    if pieces.len() == 0 {
        (name, acc)
    } else {
        match parse_label_piece(pieces[0]) {
            None => fold_labels(pieces.skip(1), name, acc),
            Some(kv) => if kv.0 == name_key() {
                fold_labels(pieces.skip(1), kv.1, acc)
            } else {
                fold_labels(pieces.skip(1), name, assoc_set(acc, kv.0, kv.1))
            },
        }
    }
}

/// Name and labels of the metric portion.  The label block is read only
/// when the portion ends with `}`; otherwise the block is dropped and the
/// text before the first `{` stands as the name.
pub open spec fn metric_parts(metric: Seq<char>) -> (Seq<char>, Seq<(Seq<char>, Seq<char>)>) {
    if has_char(metric, '{') {
        let b = first_pos(metric, '{');
        let name0 = metric.take(b);
        if metric.len() > 0 && metric.last() == '}' && b + 1 <= metric.len() - 1 {
            let inner = metric.subrange(b + 1, metric.len() - 1);
            fold_labels(split_commas(inner), name0, Seq::empty())
        } else {
            (name0, Seq::empty())
        }
    } else {
        (metric, Seq::empty())
    }
}

/// The sample built from a metric portion and its numeric tokens; invalid
/// when a `{` has no `}` anywhere, or when the name comes out empty.
pub open spec fn line_sample(
    metric: Seq<char>,
    value: Seq<char>,
    ts: Option<Seq<char>>,
) -> LineModel {
    if has_char(metric, '{') && !has_char(metric, '}') {
        LineModel::Invalid
    } else {
        let parts = metric_parts(metric);
        if parts.0.len() == 0 {
            LineModel::Invalid
        } else {
            LineModel::Sample(
                SampleModel { name: parts.0, labels: parts.1, value, timestamp: ts },
            )
        }
    }
}

/// What parsing one line of exposition text yields.
pub open spec fn parse_line_spec(line: Seq<char>) -> LineModel {
    let t = trim_spec(line);
    if t.len() == 0 || t[0] == '#' {
        LineModel::Skip
    } else {
        let p = last_pos(t, ' ');
        if !(0 <= p < t.len()) {
            LineModel::Invalid
        } else {
            let head = t.take(p);
            let lastv = t.skip(p + 1);
            let p2 = last_pos(head, ' ');
            if 0 <= p2 < head.len() && is_float_text(head.skip(p2 + 1)) && is_float_text(lastv) {
                line_sample(head.take(p2), head.skip(p2 + 1), Some(lastv))
            } else if is_float_text(lastv) {
                line_sample(head, lastv, None)
            } else {
                LineModel::Invalid
            }
        }
    }
}

fn unquote_exec(v: Vec<char>) -> (r: Vec<char>)
    ensures
        r@ == unquote(v@),
{
    let n = v.len();
    if n >= 2 && v[0] == '"' && v[n - 1] == '"' {
        subvec(&v, 1, n - 1)
    } else {
        v
    }
}

fn is_name_key(v: &Vec<char>) -> (r: bool)
    ensures
        r == (v@ == name_key()),
{
    if v.len() != 8 {
        return false;
    }
    let r = v[0] == '_' && v[1] == '_' && v[2] == 'n' && v[3] == 'a' && v[4] == 'm' && v[5] == 'e'
        && v[6] == '_' && v[7] == '_';
    proof {
        if r {
            assert(v@ =~= name_key());
        } else {
            assert(v@ != name_key());
        }
    }
    r
}

proof fn lemma_assoc_set_at(l: Seq<(Seq<char>, Seq<char>)>, k: Seq<char>, v: Seq<char>, i: int)
    requires
        0 <= i < l.len(),
        l[i].0 == k,
        forall|j: int| 0 <= j < i ==> l[j].0 != k,
    ensures
        assoc_set(l, k, v) =~= l.update(i, (k, v)),
    decreases i,
{
    if i == 0 {
        assert(seq![(k, v)] + l.skip(1) =~= l.update(0, (k, v)));
    } else {
        lemma_assoc_set_at(l.skip(1), k, v, i - 1);
        assert(seq![l[0]] + l.skip(1).update(i - 1, (k, v)) =~= l.update(i, (k, v)));
    }
}

pub proof fn lemma_assoc_set_absent(l: Seq<(Seq<char>, Seq<char>)>, k: Seq<char>, v: Seq<char>)
    requires
        forall|j: int| 0 <= j < l.len() ==> l[j].0 != k,
    ensures
        assoc_set(l, k, v) =~= l.push((k, v)),
    decreases l.len(),
{
    if l.len() > 0 {
        lemma_assoc_set_absent(l.skip(1), k, v);
        assert(seq![l[0]] + l.skip(1).push((k, v)) =~= l.push((k, v)));
    }
}

fn assoc_set_exec(acc: &mut Vec<(String, String)>, k: String, v: String)
    ensures
        labels_view(final(acc)@) == assoc_set(labels_view(old(acc)@), k@, v@),
{
    let n = acc.len();
    let mut i: usize = 0;
    while i < n
        invariant
            0 <= i <= n,
            n == acc@.len(),
            acc@ == old(acc)@,
            forall|j: int| 0 <= j < i ==> labels_view(acc@)[j].0 != k@,
        decreases n - i,
    {
        if acc[i].0 == k {
            proof {
                assert(labels_view(acc@)[i as int].0 == k@);
                lemma_assoc_set_at(labels_view(acc@), k@, v@, i as int);
            }
            acc.set(i, (k, v));
            proof {
                assert(labels_view(acc@) =~= labels_view(old(acc)@).update(i as int, (k@, v@)));
            }
            return ;
        }
        proof {
            assert(labels_view(acc@)[i as int].0 == acc@[i as int].0@);
        }
        i += 1;
    }
    proof {
        lemma_assoc_set_absent(labels_view(acc@), k@, v@);
    }
    acc.push((k, v));
    proof {
        assert(labels_view(acc@) =~= labels_view(old(acc)@).push((k@, v@)));
    }
}

/// One fold step of `fold_labels` on a single piece.
spec fn step_piece(
    piece: Seq<char>,
    name: Seq<char>,
    acc: Seq<(Seq<char>, Seq<char>)>,
) -> (Seq<char>, Seq<(Seq<char>, Seq<char>)>) {
    match parse_label_piece(piece) {
        None => (name, acc),
        Some(kv) => if kv.0 == name_key() {
            (kv.1, acc)
        } else {
            (name, assoc_set(acc, kv.0, kv.1))
        },
    }
}

fn process_piece(piece: Vec<char>, name: &mut Vec<char>, acc: &mut Vec<(String, String)>)
    ensures
        (final(name)@, labels_view(final(acc)@)) == step_piece(
            piece@,
            old(name)@,
            labels_view(old(acc)@),
        ),
{
    let n = piece.len();
    match find_first(&piece, '=') {
        None => {},
        Some(q) => {
            let key = subvec(&piece, 0, q);
            let raw = subvec(&piece, q + 1, n);
            let val = unquote_exec(raw);
            proof {
                assert(key@ =~= piece@.take(q as int));
                assert(piece@.subrange(q + 1, piece@.len() as int) =~= piece@.skip(q + 1));
            }
            if is_name_key(&key) {
                *name = val;
            } else {
                let ks = chars_to_string(&key);
                let vs = chars_to_string(&val);
                assoc_set_exec(acc, ks, vs);
            }
        },
    }
}

#[verifier::loop_isolation(false)]
fn fold_labels_exec(inner: Vec<char>, name0: Vec<char>) -> (r: (Vec<char>, Vec<(String, String)>))
    ensures
        r.0@ == fold_labels(split_commas(inner@), name0@, Seq::empty()).0,
        labels_view(r.1@) == fold_labels(split_commas(inner@), name0@, Seq::empty()).1,
{
    let ghost goal = fold_labels(split_commas(inner@), name0@, Seq::empty());
    let mut rest = inner;
    let mut name = name0;
    let mut acc: Vec<(String, String)> = Vec::new();
    proof {
        assert(labels_view(acc@) =~= Seq::<(Seq<char>, Seq<char>)>::empty());
    }
    loop
        invariant
            fold_labels(split_commas(rest@), name@, labels_view(acc@)) == goal,
        decreases rest@.len(),
    {
        let ghost pieces = split_commas(rest@);
        let ghost name_snap = name@;
        let ghost acc_snap = labels_view(acc@);
        match find_first(&rest, ',') {
            Some(p) => {
                let piece = subvec(&rest, 0, p);
                proof {
                    assert(pieces == seq![rest@.take(p as int)] + split_commas(
                        rest@.skip(p + 1),
                    ));
                    assert(pieces[0] == piece@);
                    assert(pieces.skip(1) =~= split_commas(rest@.skip(p + 1)));
                }
                let rn = rest.len();
                let next = subvec(&rest, p + 1, rn);
                proof {
                    assert(next@ =~= rest@.skip(p + 1));
                }
                process_piece(piece, &mut name, &mut acc);
                proof {
                    assert(fold_labels(pieces, name_snap, acc_snap) == fold_labels(
                        pieces.skip(1),
                        name@,
                        labels_view(acc@),
                    ));
                }
                rest = next;
            },
            None => {
                proof {
                    assert(pieces =~= seq![rest@]);
                    assert(pieces[0] == rest@);
                    assert(pieces.skip(1) =~= Seq::<Seq<char>>::empty());
                }
                process_piece(rest, &mut name, &mut acc);
                proof {
                    assert(fold_labels(pieces, name_snap, acc_snap) == fold_labels(
                        pieces.skip(1),
                        name@,
                        labels_view(acc@),
                    ));
                    assert(fold_labels(
                        Seq::<Seq<char>>::empty(),
                        name@,
                        labels_view(acc@),
                    ) == (name@, labels_view(acc@)));
                    assert(goal == (name@, labels_view(acc@)));
                    assert(goal.0 == name@ && goal.1 == labels_view(acc@));
                }
                return (name, acc);
            },
        }
    }
}

fn build_sample(metric: Vec<char>, value: Vec<char>, ts: Option<Vec<char>>) -> (r: LineKind)
    ensures
        r@ == line_sample(
            metric@,
            value@,
            match ts {
                Some(t) => Some(t@),
                None => None,
            },
        ),
{
    let ghost ts_view: Option<Seq<char>> = match ts {
        Some(ref t) => Some(t@),
        None => None,
    };
    let has_open = contains_char(&metric, '{');
    let mut name: Vec<char>;
    let mut labels: Vec<(String, String)> = Vec::new();
    if has_open {
        if !contains_char(&metric, '}') {
            return LineKind::Invalid;
        }
        let b = match find_first(&metric, '{') {
            Some(b) => b,
            None => {
                proof {
                    crate::strutil::lemma_first_pos_has(metric@, '{');
                }
                // has_char holds, so find_first cannot miss
                assert(false);
                0
            },
        };
        let n = metric.len();
        let name0 = subvec(&metric, 0, b);
        proof {
            assert(name0@ =~= metric@.take(b as int));
        }
        if n > 0 && metric[n - 1] == '}' && b + 1 <= n - 1 {
            let inner = subvec(&metric, b + 1, n - 1);
            let folded = fold_labels_exec(inner, name0);
            name = folded.0;
            labels = folded.1;
        } else {
            name = name0;
        }
    } else {
        name = metric;
    }
    proof {
        assert(labels_view(Seq::<(String, String)>::empty())
            =~= Seq::<(Seq<char>, Seq<char>)>::empty());
    }
    if name.len() == 0 {
        return LineKind::Invalid;
    }
    let sample = MetricSample {
        name: chars_to_string(&name),
        labels,
        value: chars_to_string(&value),
        timestamp: match ts {
            Some(t) => Some(chars_to_string(&t)),
            None => None,
        },
    };
    LineKind::Sample(sample)
}

/// Parses one line of exposition text: `Skip` for comments and blanks,
/// a sample for well-formed lines, `Invalid` otherwise.
pub fn parse_line(line: &str) -> (r: LineKind)
    ensures
        r@ == parse_line_spec(line@),
{
    let chars = str_to_chars(line);
    let t = trim_chars(&chars);
    if t.len() == 0 {
        return LineKind::Skip;
    }
    if t[0] == '#' {
        return LineKind::Skip;
    }
    let p = match find_last(&t, ' ') {
        Some(p) => p,
        None => {
            return LineKind::Invalid;
        },
    };
    let head = subvec(&t, 0, p);
    let lastv = subvec(&t, p + 1, t.len());
    proof {
        assert(head@ =~= t@.take(p as int));
        assert(lastv@ =~= t@.skip(p + 1));
    }
    let last_is_float = is_float_chars(&lastv);
    match find_last(&head, ' ') {
        Some(p2) => {
            let mid = subvec(&head, p2 + 1, head.len());
            proof {
                assert(mid@ =~= head@.skip(p2 + 1));
            }
            if is_float_chars(&mid) && last_is_float {
                let metric = subvec(&head, 0, p2);
                proof {
                    assert(metric@ =~= head@.take(p2 as int));
                }
                build_sample(metric, mid, Some(lastv))
            } else if last_is_float {
                build_sample(head, lastv, None)
            } else {
                LineKind::Invalid
            }
        },
        None => {
            if last_is_float {
                build_sample(head, lastv, None)
            } else {
                LineKind::Invalid
            }
        },
    }
}

/// The loose per-line check used before an import: the part before the
/// last space balances any `{` with some `}`, and the token after the
/// last space is numeric.
pub open spec fn valid_line_spec(line: Seq<char>) -> bool {
    let p = last_pos(line, ' ');
    if !(0 <= p < line.len()) {
        false
    } else {
        let metric = line.take(p);
        let val = line.skip(p + 1);
        (!has_char(metric, '{') || has_char(metric, '}')) && is_float_text(val)
    }
}

/// Whether one line passes the loose pre-import shape check.
pub fn is_valid_prometheus_line(line: &str) -> (r: bool)
    ensures
        r == valid_line_spec(line@),
{
    let chars = str_to_chars(line);
    let cn = chars.len();
    let p = match find_last(&chars, ' ') {
        Some(p) => p,
        None => {
            return false;
        },
    };
    let metric = subvec(&chars, 0, p);
    let val = subvec(&chars, p + 1, cn);
    proof {
        assert(metric@ =~= line@.take(p as int));
        assert(val@ =~= line@.skip(p + 1));
    }
    if contains_char(&metric, '{') && !contains_char(&metric, '}') {
        return false;
    }
    is_float_chars(&val)
}

/// A comment or blank line: skipped by every scan, never an error.
pub open spec fn skippable_line(l: Seq<char>) -> bool {
    trim_spec(l).len() == 0 || trim_spec(l)[0] == '#'
}

/// A line that is neither skippable nor shaped like a sample.
pub open spec fn bad_line(l: Seq<char>) -> bool {
    !skippable_line(l) && !valid_line_spec(trim_spec(l))
}

/// The bad lines among `lines`, numbered from `start_no`, each with its
/// trimmed content.
pub open spec fn bad_lines(lines: Seq<Seq<char>>, start_no: int) -> Seq<(int, Seq<char>)>
    decreases lines.len(),
{
    if lines.len() == 0 {
        Seq::<(int, Seq<char>)>::empty()
    } else {
        let rest = bad_lines(lines.skip(1), start_no + 1);
        if bad_line(lines[0]) {
            seq![(start_no, trim_spec(lines[0]))] + rest
        } else {
            rest
        }
    }
}

/// What a lenient scan of an import reports.
#[derive(Debug, Clone, PartialEq, Eq)]
pub struct ValidationReport {
    /// How many lines the text holds, comments and blanks included.
    pub line_count: usize,
    /// How many lines were malformed.
    pub error_count: usize,
    /// Each malformed line: its one-based number and its trimmed content.
    pub warnings: Vec<(usize, String)>,
}

/// The warnings as pairs of number and content.
pub open spec fn warnings_view(w: Seq<(usize, String)>) -> Seq<(int, Seq<char>)> {
    w.map_values(|p: (usize, String)| (p.0 as int, p.1@))
}

/// The message of the strict-mode error for a bad line.
pub open spec fn line_msg_spec(no: int, l: Seq<char>) -> Seq<char> {
    "malformed line "@ + dec_digits(no as nat) + ": "@ + l
}

/// Scans exposition text line by line.  In strict mode the first
/// malformed line is an error that names it; in lenient mode every
/// malformed line becomes a warning and the scan runs to the end.
/// Comments and blank lines are never errors in either mode.
#[verifier::loop_isolation(false)]
#[verifier::rlimit(100)]
pub fn validate_prometheus_format(content: &str, skip_errors: bool) -> (r: Result<
    ValidationReport,
    VmCliError,
>)
    ensures
        ({
            let lines = split_lines(content@);
            let bad = bad_lines(lines, 1);
            match r {
                Ok(rep) => {
                    &&& (!skip_errors ==> bad.len() == 0)
                    &&& rep.line_count == lines.len()
                    &&& rep.error_count == bad.len()
                    &&& warnings_view(rep.warnings@) == bad
                },
                Err(e) => {
                    &&& !skip_errors
                    &&& bad.len() > 0
                    &&& (e matches VmCliError::InvalidQuery(m) && m@ == line_msg_spec(
                        bad[0].0,
                        bad[0].1,
                    ))
                },
            }
        }),
{
    let chars = str_to_chars(content);
    let lines = split_lines_exec(&chars);
    let ghost lv = lines_view(lines@);
    let n = lines.len();
    let mut warnings: Vec<(usize, String)> = Vec::new();
    let mut i: usize = 0;
    proof {
        assert(warnings_view(warnings@) =~= Seq::<(int, Seq<char>)>::empty());
        assert(lv.skip(0) =~= lv);
    }
    while i < n
        invariant
            0 <= i <= n,
            warnings_view(warnings@) + bad_lines(lv.skip(i as int), i + 1) == bad_lines(lv, 1),
            !skip_errors ==> warnings@.len() == 0,
        decreases n - i,
    {
        let ghost before = warnings_view(warnings@);
        let line = &lines[i];
        proof {
            assert(lv[i as int] == lines@[i as int]@);
        }
        let t = trim_chars(line);
        let mut is_bad = false;
        if t.len() == 0 {
        } else if t[0] == '#' {
        } else {
            let p = match find_last(&t, ' ') {
                Some(p) => Some(p),
                None => None,
            };
            let ok = match p {
                Some(p) => {
                    let metric = subvec(&t, 0, p);
                    let val = subvec(&t, p + 1, t.len());
                    proof {
                        assert(metric@ =~= t@.take(p as int));
                        assert(val@ =~= t@.skip(p + 1));
                    }
                    if contains_char(&metric, '{') && !contains_char(&metric, '}') {
                        false
                    } else {
                        is_float_chars(&val)
                    }
                },
                None => false,
            };
            is_bad = !ok;
        }
        proof {
            assert(is_bad == bad_line(lv[i as int]));
            assert(lv.skip(i as int).skip(1) =~= lv.skip(i + 1));
            assert(lv.skip(i as int)[0] == lv[i as int]);
        }
        if is_bad {
            if !skip_errors {
                // strict mode: name the first malformed line
                proof {
                    assert(before =~= Seq::<(int, Seq<char>)>::empty());
                    assert(before + bad_lines(lv.skip(i as int), i + 1) =~= bad_lines(
                        lv.skip(i as int),
                        i + 1,
                    ));
                }
                let mut msg = String::from_str("malformed line ");
                let no = u64_to_dec_chars((i + 1) as u64);
                let no_s = chars_to_string(&no);
                msg.append(no_s.as_str());
                msg.append(": ");
                let t_s = chars_to_string(&t);
                msg.append(t_s.as_str());
                proof {
                    assert(bad_lines(lv, 1) == bad_lines(lv.skip(i as int), i + 1));
                    assert(bad_lines(lv.skip(i as int), i + 1)[0] == (
                        i + 1,
                        trim_spec(lv[i as int]),
                    ));
                }
                return Err(VmCliError::InvalidQuery(msg));
            }
            let t_s = chars_to_string(&t);
            warnings.push((i + 1, t_s));
            proof {
                assert(warnings_view(warnings@) =~= before.push((i + 1, trim_spec(lv[i as int]))));
                assert(before.push((i + 1, trim_spec(lv[i as int]))) + bad_lines(
                    lv.skip(i + 1),
                    i + 2,
                ) =~= before + bad_lines(lv.skip(i as int), i + 1));
            }
        }
        i += 1;
    }
    proof {
        assert(lv.skip(n as int) =~= Seq::<Seq<char>>::empty());
        assert(warnings_view(warnings@) + bad_lines(lv.skip(n as int), n + 1) =~= warnings_view(
            warnings@,
        ));
    }
    let error_count = warnings.len();
    Ok(ValidationReport { line_count: n, error_count, warnings })
}


/// Law: a blank or comment line is skipped by the parser and is never an
/// error, so it counts as malformed in neither strict nor lenient mode.
pub proof fn lemma_comment_blank_skipped(l: Seq<char>)
    requires
        trim_spec(l).len() == 0 || trim_spec(l)[0] == '#',
    ensures
        parse_line_spec(l) == LineModel::Skip,
        skippable_line(l),
        !bad_line(l),
{
}


/// Pairwise distinct label keys.
pub open spec fn keys_unique(l: Seq<(Seq<char>, Seq<char>)>) -> bool {
    forall|i: int, j: int| 0 <= i < j < l.len() ==> (#[trigger] l[i]).0 != (#[trigger] l[j]).0
}

/// A key occurs in the list.
pub open spec fn has_key(l: Seq<(Seq<char>, Seq<char>)>, k: Seq<char>) -> bool {
    exists|i: int| 0 <= i < l.len() && (#[trigger] l[i]).0 == k
}

proof fn lemma_assoc_set_keys(l: Seq<(Seq<char>, Seq<char>)>, k: Seq<char>, v: Seq<char>)
    requires
        keys_unique(l),
    ensures
        keys_unique(assoc_set(l, k, v)),
        forall|k2: Seq<char>|
            #[trigger] has_key(assoc_set(l, k, v), k2) <==> (has_key(l, k2) || k2 == k),
    decreases l.len(),
{
    let r = assoc_set(l, k, v);
    if l.len() == 0 {
        assert forall|k2: Seq<char>|
            #[trigger] has_key(r, k2) <==> (has_key(l, k2) || k2 == k) by {
            if k2 == k {
                assert(r[0].0 == k);
                assert(has_key(r, k));
            }
            if has_key(r, k2) {
                let i = choose|i: int| 0 <= i < r.len() && (#[trigger] r[i]).0 == k2;
                assert(i == 0);
            }
        }
    } else if l[0].0 == k {
        assert(r =~= seq![(k, v)] + l.skip(1));
        assert forall|i: int, j: int|
            0 <= i < j < r.len() implies (#[trigger] r[i]).0 != (#[trigger] r[j]).0 by {
            if i == 0 {
                assert(r[j].0 == l[j].0);
            } else {
                assert(r[i].0 == l[i].0 && r[j].0 == l[j].0);
            }
        }
        assert forall|k2: Seq<char>|
            #[trigger] has_key(r, k2) <==> (has_key(l, k2) || k2 == k) by {
            if has_key(r, k2) {
                let i = choose|i: int| 0 <= i < r.len() && (#[trigger] r[i]).0 == k2;
                if i == 0 {
                    assert(l[0].0 == k2);
                } else {
                    assert(l[i].0 == k2);
                }
            }
            if has_key(l, k2) {
                let i = choose|i: int| 0 <= i < l.len() && (#[trigger] l[i]).0 == k2;
                if i == 0 {
                    assert(r[0].0 == k2);
                } else {
                    assert(r[i].0 == k2);
                }
            }
            if k2 == k {
                assert(r[0].0 == k2);
            }
        }
    } else {
        let tail = l.skip(1);
        assert forall|i: int, j: int|
            0 <= i < j < tail.len() implies (#[trigger] tail[i]).0 != (#[trigger] tail[j]).0 by {
            assert(tail[i] == l[i + 1] && tail[j] == l[j + 1]);
        }
        lemma_assoc_set_keys(tail, k, v);
        let rt = assoc_set(tail, k, v);
        assert(r =~= seq![l[0]] + rt);
        assert forall|i: int, j: int|
            0 <= i < j < r.len() implies (#[trigger] r[i]).0 != (#[trigger] r[j]).0 by {
            if i == 0 {
                assert(r[j].0 == rt[j - 1].0);
                assert(has_key(rt, rt[j - 1].0));
                if r[0].0 == rt[j - 1].0 {
                    if has_key(tail, rt[j - 1].0) {
                        let w = choose|w: int|
                            0 <= w < tail.len() && (#[trigger] tail[w]).0 == rt[j - 1].0;
                        assert(l[w + 1].0 == l[0].0);
                        assert(false);
                    } else {
                        assert(rt[j - 1].0 == k);
                        assert(false);
                    }
                }
            } else {
                assert(r[i].0 == rt[i - 1].0 && r[j].0 == rt[j - 1].0);
            }
        }
        assert forall|k2: Seq<char>|
            #[trigger] has_key(r, k2) <==> (has_key(l, k2) || k2 == k) by {
            if has_key(r, k2) {
                let i = choose|i: int| 0 <= i < r.len() && (#[trigger] r[i]).0 == k2;
                if i == 0 {
                    assert(l[0].0 == k2);
                } else {
                    assert(has_key(rt, k2));
                    if has_key(tail, k2) {
                        let w = choose|w: int|
                            0 <= w < tail.len() && (#[trigger] tail[w]).0 == k2;
                        assert(l[w + 1].0 == k2);
                    }
                }
            }
            if has_key(l, k2) {
                let i = choose|i: int| 0 <= i < l.len() && (#[trigger] l[i]).0 == k2;
                if i == 0 {
                    assert(r[0].0 == k2);
                } else {
                    assert(tail[i - 1].0 == k2);
                    assert(has_key(tail, k2));
                    assert(has_key(rt, k2));
                    let w = choose|w: int| 0 <= w < rt.len() && (#[trigger] rt[w]).0 == k2;
                    assert(r[w + 1].0 == k2);
                }
            }
            if k2 == k {
                assert(has_key(rt, k2));
                let w = choose|w: int| 0 <= w < rt.len() && (#[trigger] rt[w]).0 == k2;
                assert(r[w + 1].0 == k2);
            }
        }
    }
}

proof fn lemma_fold_labels_unique(
    pieces: Seq<Seq<char>>,
    name: Seq<char>,
    acc: Seq<(Seq<char>, Seq<char>)>,
)
    requires
        keys_unique(acc),
    ensures
        keys_unique(fold_labels(pieces, name, acc).1),
    decreases pieces.len(),
{
    if pieces.len() > 0 {
        match parse_label_piece(pieces[0]) {
            None => {
                lemma_fold_labels_unique(pieces.skip(1), name, acc);
            },
            Some(kv) => {
                if kv.0 == name_key() {
                    lemma_fold_labels_unique(pieces.skip(1), kv.1, acc);
                } else {
                    lemma_assoc_set_keys(acc, kv.0, kv.1);
                    lemma_fold_labels_unique(pieces.skip(1), name, assoc_set(acc, kv.0, kv.1));
                }
            },
        }
    }
}

/// Law: the labels of every parsed sample carry pairwise distinct keys;
/// a repeated key in the text keeps its first position with its last value.
pub proof fn lemma_parsed_labels_unique(line: Seq<char>)
    ensures
        (parse_line_spec(line) matches LineModel::Sample(s) ==> keys_unique(s.labels)),
{
    if parse_line_spec(line) matches LineModel::Sample(s) {
        let t = trim_spec(line);
        let p = last_pos(t, ' ');
        let head = t.take(p);
        let p2 = last_pos(head, ' ');
        let metric = if 0 <= p2 < head.len() && is_float_text(head.skip(p2 + 1)) && is_float_text(
            t.skip(p + 1),
        ) {
            head.take(p2)
        } else {
            head
        };
        lemma_metric_parts_unique(metric);
    }
}

proof fn lemma_metric_parts_unique(metric: Seq<char>)
    ensures
        keys_unique(metric_parts(metric).1),
{
    if has_char(metric, '{') {
        let b = first_pos(metric, '{');
        if metric.len() > 0 && metric.last() == '}' && b + 1 <= metric.len() - 1 {
            let inner = metric.subrange(b + 1, metric.len() - 1);
            lemma_fold_labels_unique(
                split_commas(inner),
                metric.take(b),
                Seq::<(Seq<char>, Seq<char>)>::empty(),
            );
        }
    }
}


} // verus!
