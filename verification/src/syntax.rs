//! The grammar of the Prometheus text exposition format, line by line, and
//! the grouping of its lines into families.
//!
//! A line is one of:
//! - empty, or a comment (`#` first, not a descriptor): skipped;
//! - `# HELP <name> <text>` or `# TYPE <name> <word>`: a descriptor;
//! - `<name>[{labels}] <value>[ <timestamp>][ # {labels} <value>[ <timestamp>]]`:
//!   a sample, with an optional exemplar.
//! Anything else breaks the grammar. Label values keep their escapes.
//! A family is a run of descriptors followed by a run of samples; a
//! descriptor after a sample starts the next family.
use vstd::prelude::*;
use crate::number::is_digit;
use crate::text::{chars_eq_str, chars_of, lines, occurs_at, occurs_at_exec, split_lines, texts};
use crate::types::pairs_view;

verus! {

/// An exemplar as written after a sample: raw labels, value and timestamp texts.
#[derive(Debug)]
pub struct ExemplarLine {
    pub labels: Vec<(Vec<char>, Vec<char>)>,
    pub value: Vec<char>,
    pub timestamp: Option<Vec<char>>,
}

pub struct ExemplarLineModel {
    pub labels: Seq<(Seq<char>, Seq<char>)>,
    pub value: Seq<char>,
    pub timestamp: Option<Seq<char>>,
}

impl View for ExemplarLine {
    type V = ExemplarLineModel;

    open spec fn view(&self) -> ExemplarLineModel {
        ExemplarLineModel {
            labels: pairs_view(self.labels@),
            value: self.value@,
            timestamp: match self.timestamp {
                Some(t) => Some(t@),
                None => None,
            },
        }
    }
}

/// A sample line: metric name, raw labels in written order, value text,
/// optional timestamp text and exemplar.
#[derive(Debug)]
pub struct SampleLine {
    pub name: Vec<char>,
    pub labels: Vec<(Vec<char>, Vec<char>)>,
    pub value: Vec<char>,
    pub timestamp: Option<Vec<char>>,
    pub exemplar: Option<ExemplarLine>,
}

pub struct SampleLineModel {
    pub name: Seq<char>,
    pub labels: Seq<(Seq<char>, Seq<char>)>,
    pub value: Seq<char>,
    pub timestamp: Option<Seq<char>>,
    pub exemplar: Option<ExemplarLineModel>,
}

impl View for SampleLine {
    type V = SampleLineModel;

    open spec fn view(&self) -> SampleLineModel {
        SampleLineModel {
            name: self.name@,
            labels: pairs_view(self.labels@),
            value: self.value@,
            timestamp: match self.timestamp {
                Some(t) => Some(t@),
                None => None,
            },
            exemplar: match self.exemplar {
                Some(e) => Some(e@),
                None => None,
            },
        }
    }
}

/// A line that belongs to a family.
#[derive(Debug)]
pub enum Item {
    /// `# HELP`: the metric name and the help text.
    Help(Vec<char>, Vec<char>),
    /// `# TYPE`: the metric name and the type word.
    Type(Vec<char>, Vec<char>),
    Sample(SampleLine),
}

pub enum ItemModel {
    Help(Seq<char>, Seq<char>),
    Type(Seq<char>, Seq<char>),
    Sample(SampleLineModel),
}

impl View for Item {
    type V = ItemModel;

    open spec fn view(&self) -> ItemModel {
        match self {
            Item::Help(n, t) => ItemModel::Help(n@, t@),
            Item::Type(n, t) => ItemModel::Type(n@, t@),
            Item::Sample(s) => ItemModel::Sample(s@),
        }
    }
}

pub open spec fn items_view(v: Seq<Item>) -> Seq<ItemModel> {
    v.map_values(|i: Item| i@)
}

pub open spec fn groups_view(v: Seq<Vec<Item>>) -> Seq<Seq<ItemModel>> {
    v.map_values(|g: Vec<Item>| items_view(g@))
}

pub open spec fn is_letter(c: char) -> bool {
    ('a' <= c <= 'z') || ('A' <= c <= 'Z')
}

/// First character of a metric name.
pub open spec fn is_name_start(c: char) -> bool {
    is_letter(c) || c == '_' || c == ':'
}

pub open spec fn is_name_char(c: char) -> bool {
    is_name_start(c) || is_digit(c)
}

/// First character of a label name.
pub open spec fn is_label_start(c: char) -> bool {
    is_letter(c) || c == '_'
}

pub open spec fn is_label_char(c: char) -> bool {
    is_label_start(c) || is_digit(c)
}

/// The end of the run of metric-name characters from `i`.
pub open spec fn name_rest_end(l: Seq<char>, i: int) -> int
    decreases l.len() - i,
{
    if 0 <= i < l.len() && is_name_char(l[i]) {
        name_rest_end(l, i + 1)
    } else {
        i
    }
}

/// The end of a metric name that starts at `i`.
pub open spec fn metric_name_end(l: Seq<char>, i: int) -> Option<int> {
    if 0 <= i < l.len() && is_name_start(l[i]) {
        Some(name_rest_end(l, i + 1))
    } else {
        None
    }
}

pub open spec fn label_rest_end(l: Seq<char>, i: int) -> int
    decreases l.len() - i,
{
    if 0 <= i < l.len() && is_label_char(l[i]) {
        label_rest_end(l, i + 1)
    } else {
        i
    }
}

/// The end of a label name that starts at `i`.
pub open spec fn label_name_end(l: Seq<char>, i: int) -> Option<int> {
    if 0 <= i < l.len() && is_label_start(l[i]) {
        Some(label_rest_end(l, i + 1))
    } else {
        None
    }
}

/// The index of the quote that closes a label value read from `i`: any
/// character but `"` and `\`, or `\` followed by `\`, `"` or `n`; `-1` when
/// the value is not closed that way.
pub open spec fn quoted_end(l: Seq<char>, i: int) -> int
    decreases l.len() - i,
{
    if i < 0 || i >= l.len() {
        -1
    } else if l[i] == '"' {
        i
    } else if l[i] == '\\' {
        if i + 1 < l.len() && (l[i + 1] == '\\' || l[i + 1] == '"' || l[i + 1] == 'n') {
            quoted_end(l, i + 2)
        } else {
            -1
        }
    } else {
        quoted_end(l, i + 1)
    }
}

/// A label `name="value"` at `i`: the pair and the index after it.
pub open spec fn label_at(l: Seq<char>, i: int) -> Option<((Seq<char>, Seq<char>), int)> {
    match label_name_end(l, i) {
        None => None,
        Some(n) => if n + 1 < l.len() && l[n] == '=' && l[n + 1] == '"' && quoted_end(l, n + 2) >= 0 {
            let e = quoted_end(l, n + 2);
            Some(((l.subrange(i, n), l.subrange(n + 2, e)), e + 1))
        } else {
            None
        },
    }
}

/// The labels from `i` (just after `{` or a `,`) to the closing `}`,
/// appended to `acc`, and the index after the `}`. A `,` may end the list.
pub open spec fn labels_from(l: Seq<char>, i: int, acc: Seq<(Seq<char>, Seq<char>)>) -> Option<
    (Seq<(Seq<char>, Seq<char>)>, int),
>
    decreases l.len() - i,
{
    if i < 0 || i >= l.len() {
        None
    } else if l[i] == '}' {
        Some((acc, i + 1))
    } else {
        match label_at(l, i) {
            None => None,
            Some((p, j)) => if j <= i || j >= l.len() {
                None
            } else if l[j] == ',' {
                if j + 1 < l.len() && l[j + 1] == '}' {
                    Some((acc.push(p), j + 2))
                } else {
                    labels_from(l, j + 1, acc.push(p))
                }
            } else if l[j] == '}' {
                Some((acc.push(p), j + 1))
            } else {
                None
            },
        }
    }
}

/// A `{...}` label list at `i`.
pub open spec fn labels_at(l: Seq<char>, i: int) -> Option<(Seq<(Seq<char>, Seq<char>)>, int)> {
    if 0 <= i < l.len() && l[i] == '{' {
        labels_from(l, i + 1, seq![])
    } else {
        None
    }
}

/// The index of the first space at or after `i`, or the length of the line.
pub open spec fn field_end(l: Seq<char>, i: int) -> int
    decreases l.len() - i,
{
    if 0 <= i < l.len() && l[i] != ' ' {
        field_end(l, i + 1)
    } else {
        i
    }
}

/// The end of the run of digits from `i`.
pub open spec fn digits_end(t: Seq<char>, i: int) -> int
    decreases t.len() - i,
{
    if 0 <= i < t.len() && is_digit(t[i]) {
        digits_end(t, i + 1)
    } else {
        i
    }
}

/// An exponent `e`/`E`, an optional sign and digits, ending the text, at `m`.
pub open spec fn exponent_at(t: Seq<char>, m: int) -> bool {
    &&& 0 <= m < t.len()
    &&& (t[m] == 'e' || t[m] == 'E')
    &&& {
        let s = if m + 1 < t.len() && (t[m + 1] == '+' || t[m + 1] == '-') {
            m + 2
        } else {
            m + 1
        };
        digits_end(t, s) > s && digits_end(t, s) == t.len()
    }
}

/// The end of the mantissa of a real number read from `s0` (after its
/// sign): digits with an optional fraction, or a point and digits; `-1`
/// when there is none.
pub open spec fn mantissa_end(t: Seq<char>, s0: int) -> int {
    let d = digits_end(t, s0);
    if d > s0 {
        if d < t.len() && t[d] == '.' {
            digits_end(t, d + 1)
        } else {
            d
        }
    } else if s0 < t.len() && t[s0] == '.' && digits_end(t, s0 + 1) > s0 + 1 {
        digits_end(t, s0 + 1)
    } else {
        -1
    }
}

/// A real number: optional sign, mantissa, optional exponent.
pub open spec fn is_real(t: Seq<char>) -> bool {
    let s0: int = if t.len() > 0 && (t[0] == '+' || t[0] == '-') {
        1
    } else {
        0
    };
    let m = mantissa_end(t, s0);
    m >= 0 && (m == t.len() || exponent_at(t, m))
}

/// The spellings of NaN and the infinities.
pub open spec fn is_special_number(t: Seq<char>) -> bool {
    ||| t == "NaN"@
    ||| t == "nan"@
    ||| t == "Inf"@
    ||| t == "inf"@
    ||| t == "+Inf"@
    ||| t == "+inf"@
    ||| t == "-Inf"@
    ||| t == "-inf"@
}

/// A value or timestamp text.
pub open spec fn is_number_text(t: Seq<char>) -> bool {
    is_real(t) || is_special_number(t)
}

/// Whether ` # ` starts at `k`.
pub open spec fn starts_exemplar(l: Seq<char>, k: int) -> bool {
    0 <= k && k + 2 < l.len() && l[k] == ' ' && l[k + 1] == '#' && l[k + 2] == ' '
}

/// The exemplar that starts with ` # ` at `k` and ends the line.
pub open spec fn exemplar_at(l: Seq<char>, k: int) -> Option<ExemplarLineModel> {
    match labels_at(l, k + 3) {
        None => None,
        Some((ls, m)) => if !(m < l.len() && l[m] == ' ') {
            None
        } else {
            let ve = field_end(l, m + 1);
            let v = l.subrange(m + 1, ve);
            if !is_number_text(v) {
                None
            } else if ve == l.len() {
                Some(ExemplarLineModel { labels: ls, value: v, timestamp: None })
            } else {
                let te = field_end(l, ve + 1);
                let ts = l.subrange(ve + 1, te);
                if is_number_text(ts) && te == l.len() {
                    Some(ExemplarLineModel { labels: ls, value: v, timestamp: Some(ts) })
                } else {
                    None
                }
            }
        },
    }
}

/// The rest of a sample line from `j`, where the space before the value stands.
pub open spec fn sample_from(
    l: Seq<char>,
    name: Seq<char>,
    labs: Seq<(Seq<char>, Seq<char>)>,
    j: int,
) -> Option<SampleLineModel> {
    if !(0 <= j < l.len() && l[j] == ' ') {
        None
    } else {
        let ve = field_end(l, j + 1);
        let v = l.subrange(j + 1, ve);
        if !is_number_text(v) {
            None
        } else if ve == l.len() {
            Some(
                SampleLineModel { name, labels: labs, value: v, timestamp: None, exemplar: None },
            )
        } else if starts_exemplar(l, ve) {
            match exemplar_at(l, ve) {
                None => None,
                Some(e) => Some(
                    SampleLineModel {
                        name,
                        labels: labs,
                        value: v,
                        timestamp: None,
                        exemplar: Some(e),
                    },
                ),
            }
        } else {
            let te = field_end(l, ve + 1);
            let ts = l.subrange(ve + 1, te);
            if !is_number_text(ts) {
                None
            } else if te == l.len() {
                Some(
                    SampleLineModel {
                        name,
                        labels: labs,
                        value: v,
                        timestamp: Some(ts),
                        exemplar: None,
                    },
                )
            } else if starts_exemplar(l, te) {
                match exemplar_at(l, te) {
                    None => None,
                    Some(e) => Some(
                        SampleLineModel {
                            name,
                            labels: labs,
                            value: v,
                            timestamp: Some(ts),
                            exemplar: Some(e),
                        },
                    ),
                }
            } else {
                None
            }
        }
    }
}

/// A sample line.
pub open spec fn sample_line(l: Seq<char>) -> Option<SampleLineModel> {
    match metric_name_end(l, 0) {
        None => None,
        Some(n) => {
            let name = l.subrange(0, n);
            if n < l.len() && l[n] == '{' {
                match labels_at(l, n) {
                    None => None,
                    Some((ls, j)) => sample_from(l, name, ls, j),
                }
            } else {
                sample_from(l, name, seq![], n)
            }
        },
    }
}

pub open spec fn all_letters(t: Seq<char>) -> bool {
    forall|i: int| 0 <= i < t.len() ==> is_letter(#[trigger] t[i])
}

/// A `# HELP` or `# TYPE` line.
pub open spec fn descriptor_line(l: Seq<char>) -> Option<ItemModel> {
    let k = "# HELP "@.len() as int;
    if occurs_at(l, "# HELP "@, 0) {
        match metric_name_end(l, k) {
            Some(n) => if n < l.len() && l[n] == ' ' {
                Some(ItemModel::Help(l.subrange(k, n), l.subrange(n + 1, l.len() as int)))
            } else {
                None
            },
            None => None,
        }
    } else if occurs_at(l, "# TYPE "@, 0) {
        match metric_name_end(l, "# TYPE "@.len() as int) {
            Some(n) => if n + 1 < l.len() && l[n] == ' ' && all_letters(
                l.subrange(n + 1, l.len() as int),
            ) {
                Some(
                    ItemModel::Type(
                        l.subrange("# TYPE "@.len() as int, n),
                        l.subrange(n + 1, l.len() as int),
                    ),
                )
            } else {
                None
            },
            None => None,
        }
    } else {
        None
    }
}

/// What a line is.
pub enum LineKind {
    Skip,
    Line(ItemModel),
    Broken,
}

pub open spec fn classify(l: Seq<char>) -> LineKind {
    if l.len() == 0 {
        LineKind::Skip
    } else if l[0] == '#' {
        match descriptor_line(l) {
            Some(d) => LineKind::Line(d),
            None => LineKind::Skip,
        }
    } else {
        match sample_line(l) {
            Some(s) => LineKind::Line(ItemModel::Sample(s)),
            None => LineKind::Broken,
        }
    }
}

/// Adds an item to the families read so far: a descriptor that follows a
/// sample opens a new family.
pub open spec fn add_item(groups: Seq<Seq<ItemModel>>, it: ItemModel) -> Seq<Seq<ItemModel>> {
    if groups.len() == 0 {
        seq![seq![it]]
    } else if !(it is Sample) && groups.last().len() > 0 && groups.last().last() is Sample {
        groups.push(seq![it])
    } else {
        groups.update(groups.len() - 1, groups.last().push(it))
    }
}

/// The families of the given lines, or the number of the first broken line.
pub open spec fn scan_lines(ls: Seq<Seq<char>>) -> Result<Seq<Seq<ItemModel>>, nat>
    decreases ls.len(),
{
    if ls.len() == 0 {
        Ok(seq![])
    } else {
        match scan_lines(ls.drop_last()) {
            Err(n) => Err(n),
            Ok(g) => match classify(ls.last()) {
                LineKind::Skip => Ok(g),
                LineKind::Line(it) => Ok(add_item(g, it)),
                LineKind::Broken => Err(ls.len()),
            },
        }
    }
}

/// The families of an exposition text.
pub open spec fn scan(text: Seq<char>) -> Result<Seq<Seq<ItemModel>>, nat> {
    scan_lines(lines(text))
}

// ---------------------------------------------------------------------------
// Executable grammar.

fn letter(c: char) -> (r: bool)
    ensures
        r == is_letter(c),
{
    ('a' <= c && c <= 'z') || ('A' <= c && c <= 'Z')
}

fn digit(c: char) -> (r: bool)
    ensures
        r == is_digit(c),
{
    '0' <= c && c <= '9'
}

fn slice_of(l: &Vec<char>, from: usize, to: usize) -> (r: Vec<char>)
    requires
        from <= to <= l.len(),
    ensures
        r@ == l@.subrange(from as int, to as int),
{
    let mut r: Vec<char> = Vec::new();
    let mut j = from;
    while j < to
        invariant
            from <= j <= to <= l.len(),
            r@ == l@.subrange(from as int, j as int),
        decreases to - j,
    {
        r.push(l[j]);
        j = j + 1;
        assert(r@ =~= l@.subrange(from as int, j as int));
    }
    r
}

fn name_rest_end_exec(l: &Vec<char>, i: usize) -> (r: usize)
    requires
        i <= l.len(),
    ensures
        r == name_rest_end(l@, i as int),
        i <= r <= l.len(),
{
    let mut j = i;
    while j < l.len() && (letter(l[j]) || l[j] == '_' || l[j] == ':' || digit(l[j]))
        invariant
            i <= j <= l.len(),
            name_rest_end(l@, i as int) == name_rest_end(l@, j as int),
        decreases l.len() - j,
    {
        j = j + 1;
    }
    j
}

fn metric_name_end_exec(l: &Vec<char>, i: usize) -> (r: Option<usize>)
    requires
        i <= l.len(),
    ensures
        r matches Some(n) ==> metric_name_end(l@, i as int) == Some(n as int) && i < n <= l.len(),
        r is None ==> metric_name_end(l@, i as int) is None,
{
    if i < l.len() && (letter(l[i]) || l[i] == '_' || l[i] == ':') {
        Some(name_rest_end_exec(l, i + 1))
    } else {
        None
    }
}

fn label_name_end_exec(l: &Vec<char>, i: usize) -> (r: Option<usize>)
    requires
        i <= l.len(),
    ensures
        r matches Some(n) ==> label_name_end(l@, i as int) == Some(n as int) && i < n <= l.len(),
        r is None ==> label_name_end(l@, i as int) is None,
{
    if i < l.len() && (letter(l[i]) || l[i] == '_') {
        let mut j = i + 1;
        while j < l.len() && (letter(l[j]) || l[j] == '_' || digit(l[j]))
            invariant
                i < j <= l.len(),
                label_rest_end(l@, (i + 1) as int) == label_rest_end(l@, j as int),
            decreases l.len() - j,
        {
            j = j + 1;
        }
        Some(j)
    } else {
        None
    }
}

fn quoted_end_exec(l: &Vec<char>, i: usize) -> (r: Option<usize>)
    requires
        i <= l.len(),
    ensures
        r matches Some(e) ==> quoted_end(l@, i as int) == e as int && i <= e < l.len(),
        r is None ==> quoted_end(l@, i as int) < 0,
{
    let mut j = i;
    while j < l.len()
        invariant
            i <= j <= l.len() + 1,
            quoted_end(l@, i as int) == quoted_end(l@, j as int),
        decreases l.len() + 1 - j,
    {
        if l[j] == '"' {
            return Some(j);
        } else if l[j] == '\\' {
            if j + 1 < l.len() && (l[j + 1] == '\\' || l[j + 1] == '"' || l[j + 1] == 'n') {
                j = j + 2;
            } else {
                return None;
            }
        } else {
            j = j + 1;
        }
    }
    None
}

fn label_at_exec(l: &Vec<char>, i: usize) -> (r: Option<((Vec<char>, Vec<char>), usize)>)
    requires
        i <= l.len(),
    ensures
        match label_at(l@, i as int) {
            Some((p, j)) => r matches Some((q, k)) && (q.0@, q.1@) == p && k == j && i < k <= l.len(),
            None => r is None,
        },
{
    match label_name_end_exec(l, i) {
        None => None,
        Some(n) => {
            if n < l.len() && n + 1 < l.len() && l[n] == '=' && l[n + 1] == '"' {
                match quoted_end_exec(l, n + 2) {
                    None => None,
                    Some(e) => {
                        let name = slice_of(l, i, n);
                        let value = slice_of(l, n + 2, e);
                        Some(((name, value), e + 1))
                    },
                }
            } else {
                None
            }
        },
    }
}

fn labels_at_exec(l: &Vec<char>, i: usize) -> (r: Option<(Vec<(Vec<char>, Vec<char>)>, usize)>)
    requires
        i <= l.len(),
    ensures
        match labels_at(l@, i as int) {
            Some((ls, j)) => r matches Some((v, k)) && pairs_view(v@) == ls && k == j && i < k <= l.len(),
            None => r is None,
        },
{
    if !(i < l.len() && l[i] == '{') {
        return None;
    }
    let mut acc: Vec<(Vec<char>, Vec<char>)> = Vec::new();
    let mut k = i + 1;
    assert(pairs_view(acc@) =~= Seq::<(Seq<char>, Seq<char>)>::empty());
    while k < l.len()
        invariant
            i < k <= l.len(),
            labels_at(l@, i as int) == labels_from(l@, k as int, pairs_view(acc@)),
        decreases l.len() - k,
    {
        if l[k] == '}' {
            return Some((acc, k + 1));
        }
        match label_at_exec(l, k) {
            None => {
                return None;
            },
            Some((p, j)) => {
                if j >= l.len() {
                    return None;
                }
                let ghost before = pairs_view(acc@);
                let ghost pv = (p.0@, p.1@);
                acc.push(p);
                assert(pairs_view(acc@) =~= before.push(pv));
                if l[j] == ',' {
                    if j + 1 < l.len() && l[j + 1] == '}' {
                        return Some((acc, j + 2));
                    }
                    k = j + 1;
                } else if l[j] == '}' {
                    return Some((acc, j + 1));
                } else {
                    return None;
                }
            },
        }
    }
    None
}

fn field_end_exec(l: &Vec<char>, i: usize) -> (r: usize)
    requires
        i <= l.len(),
    ensures
        r == field_end(l@, i as int),
        i <= r <= l.len(),
{
    let mut j = i;
    while j < l.len() && l[j] != ' '
        invariant
            i <= j <= l.len(),
            field_end(l@, i as int) == field_end(l@, j as int),
        decreases l.len() - j,
    {
        j = j + 1;
    }
    j
}

fn digits_end_exec(t: &Vec<char>, i: usize) -> (r: usize)
    requires
        i <= t.len(),
    ensures
        r == digits_end(t@, i as int),
        i <= r <= t.len(),
{
    let mut j = i;
    while j < t.len() && digit(t[j])
        invariant
            i <= j <= t.len(),
            digits_end(t@, i as int) == digits_end(t@, j as int),
        decreases t.len() - j,
    {
        j = j + 1;
    }
    j
}

fn number_text(t: &Vec<char>) -> (r: bool)
    ensures
        r == is_number_text(t@),
{
    let n = t.len();
    let s0: usize = if n > 0 && (t[0] == '+' || t[0] == '-') {
        1
    } else {
        0
    };
    let d = digits_end_exec(t, s0);
    let m: Option<usize> = if d > s0 {
        if d < n && t[d] == '.' {
            Some(digits_end_exec(t, d + 1))
        } else {
            Some(d)
        }
    } else if s0 < n && t[s0] == '.' && digits_end_exec(t, s0 + 1) > s0 + 1 {
        Some(digits_end_exec(t, s0 + 1))
    } else {
        None
    };
    let is_real_text = match m {
        None => false,
        Some(m) => {
            if m == n {
                true
            } else if t[m] == 'e' || t[m] == 'E' {
                let s = if m + 1 < n && (t[m + 1] == '+' || t[m + 1] == '-') {
                    m + 2
                } else {
                    m + 1
                };
                let de = digits_end_exec(t, s);
                de > s && de == n
            } else {
                false
            }
        },
    };
    is_real_text || special_number(t)
}

fn special_number(t: &Vec<char>) -> (r: bool)
    ensures
        r == is_special_number(t@),
{
    chars_eq_str(t, "NaN") || chars_eq_str(t, "nan") || chars_eq_str(t, "Inf") || chars_eq_str(
        t,
        "inf",
    ) || chars_eq_str(t, "+Inf") || chars_eq_str(t, "+inf") || chars_eq_str(t, "-Inf")
        || chars_eq_str(t, "-inf")
}

fn starts_exemplar_exec(l: &Vec<char>, k: usize) -> (r: bool)
    ensures
        r == starts_exemplar(l@, k as int),
{
    k < l.len() && 2 < l.len() - k && l[k] == ' ' && l[k + 1] == '#' && l[k + 2] == ' '
}

fn exemplar_at_exec(l: &Vec<char>, k: usize) -> (r: Option<ExemplarLine>)
    requires
        k + 3 <= l.len(),
    ensures
        match exemplar_at(l@, k as int) {
            Some(e) => r matches Some(x) && x@ == e,
            None => r is None,
        },
{
    match labels_at_exec(l, k + 3) {
        None => None,
        Some((ls, m)) => {
            if !(m < l.len() && l[m] == ' ') {
                return None;
            }
            let ve = field_end_exec(l, m + 1);
            let v = slice_of(l, m + 1, ve);
            if !number_text(&v) {
                None
            } else if ve == l.len() {
                Some(ExemplarLine { labels: ls, value: v, timestamp: None })
            } else {
                let te = field_end_exec(l, ve + 1);
                let ts = slice_of(l, ve + 1, te);
                if number_text(&ts) && te == l.len() {
                    Some(ExemplarLine { labels: ls, value: v, timestamp: Some(ts) })
                } else {
                    None
                }
            }
        },
    }
}

fn sample_from_exec(
    l: &Vec<char>,
    name: Vec<char>,
    labs: Vec<(Vec<char>, Vec<char>)>,
    j: usize,
) -> (r: Option<SampleLine>)
    requires
        j <= l.len(),
    ensures
        match sample_from(l@, name@, pairs_view(labs@), j as int) {
            Some(s) => r matches Some(x) && x@ == s,
            None => r is None,
        },
{
    if !(j < l.len() && l[j] == ' ') {
        return None;
    }
    let ve = field_end_exec(l, j + 1);
    let v = slice_of(l, j + 1, ve);
    if !number_text(&v) {
        None
    } else if ve == l.len() {
        Some(SampleLine { name, labels: labs, value: v, timestamp: None, exemplar: None })
    } else if starts_exemplar_exec(l, ve) {
        match exemplar_at_exec(l, ve) {
            None => None,
            Some(e) => Some(
                SampleLine { name, labels: labs, value: v, timestamp: None, exemplar: Some(e) },
            ),
        }
    } else {
        let te = field_end_exec(l, ve + 1);
        let ts = slice_of(l, ve + 1, te);
        if !number_text(&ts) {
            None
        } else if te == l.len() {
            Some(
                SampleLine { name, labels: labs, value: v, timestamp: Some(ts), exemplar: None },
            )
        } else if starts_exemplar_exec(l, te) {
            match exemplar_at_exec(l, te) {
                None => None,
                Some(e) => Some(
                    SampleLine {
                        name,
                        labels: labs,
                        value: v,
                        timestamp: Some(ts),
                        exemplar: Some(e),
                    },
                ),
            }
        } else {
            None
        }
    }
}

fn sample_line_exec(l: &Vec<char>) -> (r: Option<SampleLine>)
    ensures
        match sample_line(l@) {
            Some(s) => r matches Some(x) && x@ == s,
            None => r is None,
        },
{
    match metric_name_end_exec(l, 0) {
        None => None,
        Some(n) => {
            let name = slice_of(l, 0, n);
            if n < l.len() && l[n] == '{' {
                match labels_at_exec(l, n) {
                    None => None,
                    Some((ls, j)) => sample_from_exec(l, name, ls, j),
                }
            } else {
                let empty: Vec<(Vec<char>, Vec<char>)> = Vec::new();
                assert(pairs_view(empty@) =~= Seq::<(Seq<char>, Seq<char>)>::empty());
                sample_from_exec(l, name, empty, n)
            }
        },
    }
}

fn all_letters_exec(l: &Vec<char>, from: usize) -> (r: bool)
    requires
        from <= l.len(),
    ensures
        r == all_letters(l@.subrange(from as int, l.len() as int)),
{
    let mut j = from;
    while j < l.len()
        invariant
            from <= j <= l.len(),
            forall|k: int| from <= k < j ==> is_letter(#[trigger] l@[k]),
        decreases l.len() - j,
    {
        if !letter(l[j]) {
            assert(l@.subrange(from as int, l.len() as int)[j - from] == l@[j as int]);
            return false;
        }
        j = j + 1;
    }
    assert forall|k: int| 0 <= k < l.len() - from implies is_letter(
        #[trigger] l@.subrange(from as int, l.len() as int)[k],
    ) by {
        assert(l@.subrange(from as int, l.len() as int)[k] == l@[from + k]);
    }
    true
}

fn descriptor_line_exec(l: &Vec<char>) -> (r: Option<Item>)
    ensures
        match descriptor_line(l@) {
            Some(d) => r matches Some(x) && x@ == d,
            None => r is None,
        },
{
    let help = chars_of("# HELP ");
    let kind = chars_of("# TYPE ");
    if occurs_at_exec(l, &help, 0) {
        let k = help.len();
        match metric_name_end_exec(l, k) {
            Some(n) => if n < l.len() && l[n] == ' ' {
                Some(Item::Help(slice_of(l, k, n), slice_of(l, n + 1, l.len())))
            } else {
                None
            },
            None => None,
        }
    } else if occurs_at_exec(l, &kind, 0) {
        let k = kind.len();
        match metric_name_end_exec(l, k) {
            Some(n) => if n < l.len() && n + 1 < l.len() && l[n] == ' ' && all_letters_exec(l, n + 1) {
                Some(Item::Type(slice_of(l, k, n), slice_of(l, n + 1, l.len())))
            } else {
                None
            },
            None => None,
        }
    } else {
        None
    }
}

/// Adds an item to the families read so far.
fn add_item_exec(groups: &mut Vec<Vec<Item>>, it: Item)
    ensures
        groups_view(final(groups)@) == add_item(groups_view(old(groups)@), it@),
{
    let ghost g0 = groups_view(groups@);
    let ghost iv = it@;
    let is_sample = match &it {
        Item::Sample(_) => true,
        _ => false,
    };
    if groups.len() == 0 {
        let mut g: Vec<Item> = Vec::new();
        g.push(it);
        assert(items_view(g@) =~= seq![iv]);
        groups.push(g);
        assert(groups_view(groups@) =~= add_item(g0, iv));
        return;
    }
    let mut last = groups.pop().unwrap();
    assert(items_view(last@) == g0.last());
    let last_is_sample = last.len() > 0 && match &last[last.len() - 1] {
        Item::Sample(_) => true,
        _ => false,
    };
    if !is_sample && last_is_sample {
        groups.push(last);
        let mut g: Vec<Item> = Vec::new();
        g.push(it);
        assert(items_view(g@) =~= seq![iv]);
        groups.push(g);
        assert(groups_view(groups@) =~= add_item(g0, iv));
    } else {
        let ghost lv = items_view(last@);
        last.push(it);
        assert(items_view(last@) =~= lv.push(iv));
        groups.push(last);
        assert(groups_view(groups@) =~= add_item(g0, iv));
    }
}

/// Once a prefix of the lines breaks the grammar, the whole text does, at
/// the same line.
proof fn lemma_scan_error_stays(ls: Seq<Seq<char>>, k: int)
    requires
        0 <= k <= ls.len(),
        scan_lines(ls.take(k)) is Err,
    ensures
        scan_lines(ls) == scan_lines(ls.take(k)),
    decreases ls.len() - k,
{
    if k < ls.len() {
        assert(ls.take(k + 1).drop_last() =~= ls.take(k));
        lemma_scan_error_stays(ls, k + 1);
    } else {
        assert(ls.take(k) =~= ls);
    }
}

/// Reads an exposition text into its families, or gives the number of the
/// first line that breaks the grammar.
pub fn scan_exposition(text: &Vec<char>) -> (r: Result<Vec<Vec<Item>>, usize>)
    ensures
        match scan(text@) {
            Ok(g) => r matches Ok(v) && groups_view(v@) == g,
            Err(n) => r matches Err(m) && m == n,
        },
{
    let ls = split_lines(text);
    let mut groups: Vec<Vec<Item>> = Vec::new();
    let mut i: usize = 0;
    assert(groups_view(groups@) =~= Seq::<Seq<ItemModel>>::empty());
    while i < ls.len()
        invariant
            i <= ls.len(),
            texts(ls@) == lines(text@),
            scan_lines(texts(ls@).take(i as int)) == Ok::<Seq<Seq<ItemModel>>, nat>(
                groups_view(groups@),
            ),
        decreases ls.len() - i,
    {
        let line = &ls[i];
        assert(texts(ls@).take(i + 1).drop_last() =~= texts(ls@).take(i as int));
        assert(texts(ls@).take(i + 1).last() == line@);
        if line.len() == 0 {
        } else if line[0] == '#' {
            match descriptor_line_exec(line) {
                Some(d) => add_item_exec(&mut groups, d),
                None => {},
            }
        } else {
            match sample_line_exec(line) {
                Some(s) => add_item_exec(&mut groups, Item::Sample(s)),
                None => {
                    proof {
                        assert(classify(line@) is Broken);
                        assert(texts(ls@).take(i + 1).len() == i + 1);
                        assert(scan_lines(texts(ls@).take(i + 1)) == Err::<Seq<Seq<ItemModel>>, nat>(
                            (i + 1) as nat,
                        ));
                        lemma_scan_error_stays(texts(ls@), i + 1);
                        assert(scan_lines(texts(ls@)) == Err::<Seq<Seq<ItemModel>>, nat>(
                            (i + 1) as nat,
                        ));
                        assert(scan(text@) == Err::<Seq<Seq<ItemModel>>, nat>((i + 1) as nat));
                    }
                    return Err(i + 1);
                },
            }
        }
        i = i + 1;
    }
    assert(texts(ls@).take(ls.len() as int) =~= texts(ls@));
    Ok(groups)
}

/// Every family that the grammar reads has at least one line.
pub proof fn lemma_scan_families_nonempty(ls: Seq<Seq<char>>)
    ensures
        scan_lines(ls) matches Ok(g) ==> forall|i: int| 0 <= i < g.len() ==> #[trigger] g[i].len() > 0,
    decreases ls.len(),
{
    if ls.len() > 0 {
        lemma_scan_families_nonempty(ls.drop_last());
        if let Ok(g) = scan_lines(ls.drop_last()) {
            if let LineKind::Line(it) = classify(ls.last()) {
                let g2 = add_item(g, it);
                assert forall|i: int| 0 <= i < g2.len() implies #[trigger] g2[i].len() > 0 by {
                    if g.len() > 0 && i < g.len() {
                        assert(g[i].len() > 0);
                    }
                }
            }
        }
    }
}

/// Law: empty lines and comments (a `#` line that is no descriptor) do
/// not change what the grammar reads.
pub proof fn lemma_scan_skips_lines(ls: Seq<Seq<char>>, l: Seq<char>)
    requires
        l.len() == 0 || (l[0] == '#' && descriptor_line(l) is None),
    ensures
        scan_lines(ls.push(l)) == scan_lines(ls),
{
    assert(ls.push(l).drop_last() =~= ls);
}

/// Law: a newline at the end of an exposition changes nothing, unless the
/// text ends with a carriage return.
pub proof fn lemma_scan_trailing_newline(text: Seq<char>)
    requires
        text.len() == 0 || text.last() != '\r',
    ensures
        scan(text.push('\n')) == scan(text),
{
    crate::text::lemma_lines_newline(text);
    if crate::text::line_scan(text).1.len() == 0 {
        lemma_scan_skips_lines(lines(text), seq![]);
    }
}

} // verus!
