//! The model file: a tokenizer's pattern, special tokens and merge rules as
//! lines of text.
//!
//! ```text
//! quicktok v1
//! <pattern>
//! <number of special tokens>
//! <text of a special token> <its id>      one line for each special token
//! <left id> <right id>                    one line for each merge rule
//! ```
//!
//! The rules stand in the order in which they were learned. Their own ids are
//! not written: the first rule has the id 256, the next 257, and so on.

use crate::decimal::{
    decimal, is_digit, lemma_decimal_digits, lemma_parse_decimal, parse_decimal,
    parse_decimal_at, push_decimal,
};
use crate::error::TokenizerError;
use crate::lines::{
    chars_of, cut, is_one_line, join_lines, lemma_join_take, lemma_lines_of_joined,
    lemma_lines_one_line, lines, one_line, split_lines, LineBounds,
};
use crate::model::{
    merges_wf, special_views, specials_apart, MergeRule, SpecialToken, SpecialTokenView,
    TokenizerModel, BASE_TOKENS,
};
use vstd::prelude::*;
use vstd::string::StringExecFns;

verus! {

/// The first line of every model file.
pub open spec fn version_marker() -> Seq<char> {
    "quicktok v1"@
}

/// The position of the last occurrence of `c` in the text, or -1 where it does
/// not occur.
pub open spec fn last_index_of(text: Seq<char>, c: char) -> int
    decreases text.len(),
{
    if text.len() == 0 {
        -1
    } else if text.last() == c {
        text.len() - 1
    } else {
        last_index_of(text.drop_last(), c)
    }
}

/// The last occurrence of a character lies inside the text, at that character,
/// and the character does not occur behind it.
pub proof fn lemma_last_index_of(text: Seq<char>, c: char)
    ensures
        -1 <= last_index_of(text, c) < text.len(),
        last_index_of(text, c) >= 0 ==> text[last_index_of(text, c)] == c,
        forall|i: int| last_index_of(text, c) < i < text.len() ==> text[i] != c,
    decreases text.len(),
{
    if text.len() > 0 && text.last() != c {
        let shorter = text.drop_last();
        lemma_last_index_of(shorter, c);
        assert forall|i: int| last_index_of(text, c) < i < text.len() implies text[i] != c by {
            if i < shorter.len() {
                assert(shorter[i] == text[i]);
            }
        }
    }
}

/// The line of a special token: its text, a space, and its id.
pub open spec fn special_line(special: SpecialTokenView) -> Seq<char> {
    special.text + seq![' '] + decimal(special.id as nat)
}

/// The line of a merge rule: its left id, a space, and its right id.
pub open spec fn merge_line(rule: MergeRule) -> Seq<char> {
    decimal(rule.left as nat) + seq![' '] + decimal(rule.right as nat)
}

/// The lines of the model file of a model.
pub open spec fn model_lines(model: TokenizerModel) -> Seq<Seq<char>> {
    seq![version_marker(), model.pattern, decimal(model.specials.len())]
        + model.specials.map_values(|s: SpecialTokenView| special_line(s))
        + model.merges.map_values(|r: MergeRule| merge_line(r))
}

/// The text of the model file of a model.
pub open spec fn model_text(model: TokenizerModel) -> Seq<char> {
    join_lines(model_lines(model))
}

/// The special token that a line holds: what stands before the last space of
/// the line is its text, what stands behind is its id.
pub open spec fn parse_special(line: Seq<char>) -> Option<SpecialTokenView> {
    let k = last_index_of(line, ' ');
    if k < 0 {
        None
    } else {
        match parse_decimal(line.skip(k + 1)) {
            Some(id) => Some(SpecialTokenView { text: line.take(k), id }),
            None => None,
        }
    }
}

/// The merge rule that a line holds, for a rule that is to have the given id:
/// two numbers with one space between them.
pub open spec fn parse_rule(line: Seq<char>, id: usize) -> Option<MergeRule> {
    let k = last_index_of(line, ' ');
    if k < 0 {
        None
    } else {
        match (parse_decimal(line.take(k)), parse_decimal(line.skip(k + 1))) {
            (Some(left), Some(right)) => Some(MergeRule { left, right, id }),
            _ => None,
        }
    }
}

/// What the line of special token `i` holds.
pub open spec fn special_at(ls: Seq<Seq<char>>, i: int) -> Option<SpecialTokenView> {
    parse_special(ls[3 + i])
}

/// What the line of merge rule `j` holds, in a file with `n` special tokens.
pub open spec fn rule_at(ls: Seq<Seq<char>>, n: int, j: int) -> Option<MergeRule> {
    parse_rule(ls[3 + n + j], (BASE_TOKENS + j) as usize)
}

/// The model that the lines of a model file hold, or `None` where a line is
/// missing or is not of the form that its place asks for.
pub open spec fn parse_lines(ls: Seq<Seq<char>>) -> Option<TokenizerModel> {
    if ls.len() < 3 || ls[0] != version_marker() {
        None
    } else {
        match parse_decimal(ls[2]) {
            None => None,
            Some(n) => {
                let rules = ls.len() - 3 - n;
                if rules < 0 {
                    None
                } else if !(forall|i: int| 0 <= i < n ==> (#[trigger] special_at(ls, i)) is Some) {
                    None
                } else if !(forall|j: int|
                    0 <= j < rules ==> (#[trigger] rule_at(ls, n as int, j)) is Some) {
                    None
                } else {
                    Some(
                        TokenizerModel {
                            pattern: ls[1],
                            specials: Seq::new(n as nat, |i: int| special_at(ls, i)->0),
                            merges: Seq::new(rules as nat, |j: int| rule_at(ls, n as int, j)->0),
                        },
                    )
                }
            },
        }
    }
}

/// The model that a model file with the given text holds. There is none where
/// the first line is not the version marker, where a line is malformed, where
/// a rule joins an id that is not below its own, and where a special token has
/// the id of a byte token, of a rule or of another special token.
pub open spec fn parse_model(text: Seq<char>) -> Option<TokenizerModel> {
    match parse_lines(lines(text)) {
        Some(model) => if model.wf() {
            Some(model)
        } else {
            None
        },
        None => None,
    }
}

/// The parts of a model file.
#[derive(Clone, Debug, PartialEq, Eq)]
pub struct ModelFile {
    pub pattern: String,
    pub specials: Vec<SpecialToken>,
    pub merges: Vec<MergeRule>,
}

impl View for ModelFile {
    type V = TokenizerModel;

    open spec fn view(&self) -> TokenizerModel {
        TokenizerModel {
            pattern: self.pattern@,
            specials: special_views(self.specials@),
            merges: self.merges@,
        }
    }
}

/// The characters from position `lo` up to, not including, `hi`, as a string.
fn text_between(chars: &Vec<char>, lo: usize, hi: usize) -> (text: String)
    requires
        lo <= hi <= chars@.len(),
    ensures
        text@ == chars@.subrange(lo as int, hi as int),
{
    let mut text = String::new();
    let mut i: usize = lo;
    while i < hi
        invariant
            lo <= i <= hi <= chars@.len(),
            text@ == chars@.subrange(lo as int, i as int),
        decreases hi - i,
    {
        text.push(chars[i]);
        assert(text@ =~= chars@.subrange(lo as int, i + 1));
        i = i + 1;
    }
    text
}

/// Whether the characters from `lo` up to `hi` are those of `other`.
fn same_text(chars: &Vec<char>, lo: usize, hi: usize, other: &Vec<char>) -> (same: bool)
    requires
        lo <= hi <= chars@.len(),
    ensures
        same == (chars@.subrange(lo as int, hi as int) == other@),
{
    let ghost line = chars@.subrange(lo as int, hi as int);
    if hi - lo != other.len() {
        return false;
    }
    let mut i: usize = 0;
    while i < other.len()
        invariant
            lo <= hi <= chars@.len(),
            hi - lo == other@.len(),
            i <= other@.len(),
            line == chars@.subrange(lo as int, hi as int),
            forall|j: int| 0 <= j < i ==> line[j] == other@[j],
        decreases other@.len() - i,
    {
        if chars[lo + i] != other[i] {
            assert(line[i as int] != other@[i as int]);
            return false;
        }
        i = i + 1;
    }
    assert(line =~= other@);
    true
}

/// The position of the last space among the characters from `lo` up to `hi`,
/// counted from `lo`.
fn last_space(chars: &Vec<char>, lo: usize, hi: usize) -> (found: Option<usize>)
    requires
        lo <= hi <= chars@.len(),
    ensures
        match found {
            Some(k) => k == last_index_of(chars@.subrange(lo as int, hi as int), ' ') && k < hi
                - lo,
            None => last_index_of(chars@.subrange(lo as int, hi as int), ' ') < 0,
        },
{
    let ghost line = chars@.subrange(lo as int, hi as int);
    let mut i: usize = hi;
    proof {
        assert(line.take(i - lo) =~= line);
    }
    while i > lo
        invariant
            lo <= i <= hi <= chars@.len(),
            line == chars@.subrange(lo as int, hi as int),
            last_index_of(line, ' ') == last_index_of(line.take(i - lo), ' '),
        decreases i,
    {
        proof {
            assert(line.take(i - lo).drop_last() =~= line.take(i - lo - 1));
            assert(line.take(i - lo).last() == chars@[i - 1]);
        }
        i = i - 1;
        if chars[i] == ' ' {
            return Some(i - lo);
        }
    }
    None
}

/// Reads a line as that of a special token.
fn read_special(chars: &Vec<char>, line: LineBounds) -> (special: Option<SpecialToken>)
    requires
        line.start <= line.end <= chars@.len(),
    ensures
        match parse_special(chars@.subrange(line.start as int, line.end as int)) {
            Some(view) => special matches Some(s) && s@ == view,
            None => special is None,
        },
{
    let ghost text = chars@.subrange(line.start as int, line.end as int);
    match last_space(chars, line.start, line.end) {
        Some(k) => {
            let cut_at: usize = line.start + k;
            proof {
                assert(text.skip(k + 1) =~= chars@.subrange(cut_at + 1, line.end as int));
                assert(text.take(k as int) =~= chars@.subrange(line.start as int, cut_at as int));
            }
            match parse_decimal_at(chars, cut_at + 1, line.end) {
                Some(id) => Some(
                    SpecialToken { text: text_between(chars, line.start, cut_at), id },
                ),
                None => None,
            }
        },
        None => None,
    }
}

/// Reads a line as that of a merge rule that is to have the given id.
fn read_rule(chars: &Vec<char>, line: LineBounds, id: usize) -> (rule: Option<MergeRule>)
    requires
        line.start <= line.end <= chars@.len(),
    ensures
        rule == parse_rule(chars@.subrange(line.start as int, line.end as int), id),
{
    let ghost text = chars@.subrange(line.start as int, line.end as int);
    match last_space(chars, line.start, line.end) {
        Some(k) => {
            let cut_at: usize = line.start + k;
            proof {
                assert(text.skip(k + 1) =~= chars@.subrange(cut_at + 1, line.end as int));
                assert(text.take(k as int) =~= chars@.subrange(line.start as int, cut_at as int));
            }
            let left = parse_decimal_at(chars, line.start, cut_at);
            let right = parse_decimal_at(chars, cut_at + 1, line.end);
            match (left, right) {
                (Some(left), Some(right)) => Some(MergeRule { left, right, id }),
                _ => None,
            }
        },
        None => None,
    }
}

/// Whether the rules form a merge table and the special tokens keep clear of
/// the ids of the byte tokens and of the rules, and of each other.
pub fn ids_are_valid(specials: &Vec<SpecialToken>, merges: &Vec<MergeRule>) -> (valid: bool)
    ensures
        valid == (merges_wf(merges@) && specials_apart(
            merges@.len(),
            special_views(specials@),
        )),
{
    let ghost views = special_views(specials@);
    let m: usize = merges.len();
    let mut i: usize = 0;
    while i < m
        invariant
            m == merges@.len(),
            i <= m,
            merges_wf(merges@.take(i as int)),
        decreases m - i,
    {
        let rule = merges[i];
        if i > usize::MAX - BASE_TOKENS || rule.id != BASE_TOKENS + i || rule.left >= rule.id
            || rule.right >= rule.id {
            assert(!merges_wf(merges@)) by {
                assert(merges@[i as int] == rule);
            }
            return false;
        }
        proof {
            assert forall|j: int| 0 <= j < i + 1 implies ({
                let r = #[trigger] merges@.take(i + 1)[j];
                &&& r.id == BASE_TOKENS + j
                &&& r.left < r.id
                &&& r.right < r.id
            }) by {
                if j < i {
                    assert(merges@.take(i + 1)[j] == merges@.take(i as int)[j]);
                }
            }
        }
        i = i + 1;
    }
    assert(merges@.take(i as int) =~= merges@);
    if m > usize::MAX - BASE_TOKENS {
        // The rules have used up the ids: none is left for a special token.
        if specials.len() > 0 {
            assert(views[0].id < BASE_TOKENS + merges@.len());
            return false;
        }
        return true;
    }
    let first_free: usize = BASE_TOKENS + m;
    let n: usize = specials.len();
    let mut s: usize = 0;
    while s < n
        invariant
            n == specials@.len(),
            s <= n,
            views == special_views(specials@),
            first_free == BASE_TOKENS + merges@.len(),
            specials_apart(merges@.len(), views.take(s as int)),
        decreases n - s,
    {
        let id = specials[s].id;
        assert(views[s as int].id == id);
        if id < first_free {
            return false;
        }
        let mut t: usize = 0;
        while t < s
            invariant
                n == specials@.len(),
                t <= s < n,
                views == special_views(specials@),
                views[s as int].id == id,
                forall|j: int| 0 <= j < t ==> (#[trigger] views[j]).id != id,
            decreases s - t,
        {
            if specials[t].id == id {
                assert(views[t as int].id == views[s as int].id);
                return false;
            }
            t = t + 1;
        }
        proof {
            let longer = views.take(s + 1);
            assert forall|a: int, b: int| 0 <= a < b < longer.len() implies (
            #[trigger] longer[a]).id != (#[trigger] longer[b]).id by {
                if b < s {
                    assert(views.take(s as int)[a].id != views.take(s as int)[b].id);
                }
            }
            assert forall|a: int| 0 <= a < longer.len() implies (#[trigger] longer[a]).id
                >= BASE_TOKENS + merges@.len() by {
                if a < s {
                    assert(views.take(s as int)[a].id >= BASE_TOKENS + merges@.len());
                }
            }
        }
        s = s + 1;
    }
    assert(views.take(s as int) =~= views);
    true
}

/// Whether the parts of a model file make up a model that a tokenizer can hold.
pub fn model_is_valid(file: &ModelFile) -> (valid: bool)
    ensures
        valid == file@.wf(),
{
    if !ids_are_valid(&file.specials, &file.merges) {
        return false;
    }
    if !is_one_line(file.pattern.as_str()) {
        return false;
    }
    let ghost views = special_views(file.specials@);
    let n: usize = file.specials.len();
    let mut i: usize = 0;
    while i < n
        invariant
            i <= n,
            n == file.specials@.len(),
            views == special_views(file.specials@),
            forall|j: int| 0 <= j < i ==> one_line((#[trigger] views[j]).text),
        decreases n - i,
    {
        if !is_one_line(file.specials[i].text.as_str()) {
            assert(!one_line(views[i as int].text));
            return false;
        }
        i = i + 1;
    }
    true
}

/// Reads the text of a model file. Fails with `InvalidData` where the text
/// holds no model: see [`parse_model`].
pub fn read_model(text: &str) -> (result: Result<ModelFile, TokenizerError>)
    ensures
        match parse_model(text@) {
            Some(model) => result matches Ok(file) && file@ == model,
            None => result matches Err(e) && e == TokenizerError::InvalidData,
        },
{
    let chars = chars_of(text);
    let bounds = split_lines(&chars);
    let ghost ls = lines(chars@);
    proof {
        assert(cut(chars@, bounds@) == ls);
        assert forall|k: int| 0 <= k < bounds@.len() implies chars@.subrange(
            bounds@[k].start as int,
            bounds@[k].end as int,
        ) == #[trigger] ls[k] by {
            assert(cut(chars@, bounds@)[k] == ls[k]);
        }
    }
    if bounds.len() < 3 {
        return Err(TokenizerError::InvalidData);
    }
    let marker = chars_of("quicktok v1");
    assert(chars@ == text@);
    if !same_text(&chars, bounds[0].start, bounds[0].end, &marker) {
        return Err(TokenizerError::InvalidData);
    }
    let count: usize = match parse_decimal_at(&chars, bounds[2].start, bounds[2].end) {
        Some(n) => n,
        None => {
            return Err(TokenizerError::InvalidData);
        },
    };
    if bounds.len() - 3 < count {
        return Err(TokenizerError::InvalidData);
    }
    let rules: usize = bounds.len() - 3 - count;
    let mut specials: Vec<SpecialToken> = Vec::new();
    let mut i: usize = 0;
    while i < count
        invariant
            i <= count,
            3 + count + rules == bounds@.len(),
            bounds@.len() == ls.len(),
            bounds@.len() <= usize::MAX,
            ls == lines(text@),
            ls[0] == version_marker(),
            parse_decimal(ls[2]) == Some(count),
            specials@.len() == i,
            forall|k: int|
                0 <= k < bounds@.len() ==> (#[trigger] bounds@[k]).start <= bounds@[k].end
                    <= chars@.len(),
            forall|k: int|
                0 <= k < bounds@.len() ==> chars@.subrange(
                    bounds@[k].start as int,
                    bounds@[k].end as int,
                ) == #[trigger] ls[k],
            forall|k: int|
                0 <= k < i ==> #[trigger] special_at(ls, k) == Some(specials@[k]@),
        decreases count - i,
    {
        let line = bounds[3 + i];
        assert(chars@.subrange(line.start as int, line.end as int) == ls[3 + i]);
        match read_special(&chars, line) {
            Some(special) => {
                specials.push(special);
            },
            None => {
                assert(special_at(ls, i as int) is None);
                return Err(TokenizerError::InvalidData);
            },
        }
        i = i + 1;
    }
    let mut merges: Vec<MergeRule> = Vec::new();
    let mut j: usize = 0;
    while j < rules
        invariant
            j <= rules,
            3 + count + rules == bounds@.len(),
            bounds@.len() == ls.len(),
            bounds@.len() <= usize::MAX,
            ls == lines(text@),
            ls[0] == version_marker(),
            parse_decimal(ls[2]) == Some(count),
            specials@.len() == count,
            forall|k: int|
                0 <= k < count ==> #[trigger] special_at(ls, k) == Some(specials@[k]@),
            merges@.len() == j,
            forall|k: int|
                0 <= k < bounds@.len() ==> (#[trigger] bounds@[k]).start <= bounds@[k].end
                    <= chars@.len(),
            forall|k: int|
                0 <= k < bounds@.len() ==> chars@.subrange(
                    bounds@[k].start as int,
                    bounds@[k].end as int,
                ) == #[trigger] ls[k],
            forall|k: int|
                0 <= k < j ==> #[trigger] rule_at(ls, count as int, k) == Some(merges@[k]),
        decreases rules - j,
    {
        if j > usize::MAX - BASE_TOKENS {
            proof {
                // A rule at this place has no id of its own left.
                if parse_lines(ls) is Some {
                    let model = parse_lines(ls)->0;
                    assert(model.merges.len() == rules);
                    assert(model.merges[j as int] == rule_at(ls, count as int, j as int)->0);
                    assert(model.merges[j as int].id != BASE_TOKENS + j);
                    assert(!merges_wf(model.merges));
                }
            }
            return Err(TokenizerError::InvalidData);
        }
        let line = bounds[3 + count + j];
        assert(chars@.subrange(line.start as int, line.end as int) == ls[3 + count + j]);
        match read_rule(&chars, line, BASE_TOKENS + j) {
            Some(rule) => {
                merges.push(rule);
            },
            None => {
                assert(rule_at(ls, count as int, j as int) is None);
                return Err(TokenizerError::InvalidData);
            },
        }
        j = j + 1;
    }
    let valid = ids_are_valid(&specials, &merges);
    let pattern = text_between(&chars, bounds[1].start, bounds[1].end);
    let file = ModelFile { pattern, specials, merges };
    proof {
        let model = parse_lines(ls)->0;
        assert(parse_lines(ls) is Some);
        assert(model.specials =~= file@.specials);
        assert(model.merges =~= file@.merges);
        assert(model.pattern == file@.pattern);
        assert(model == file@);
        lemma_lines_one_line(chars@, 0);
        assert(one_line(ls[1]));
        assert forall|k: int| 0 <= k < model.specials.len() implies one_line(
            (#[trigger] model.specials[k]).text,
        ) by {
            assert(special_at(ls, k) == Some(model.specials[k]));
            assert(one_line(crate::lines::lines_from(chars@, 0)[3 + k]));
            let line = ls[3 + k];
            let cut_at = last_index_of(line, ' ');
            assert(model.specials[k].text == line.take(cut_at));
            lemma_last_index_of(line, ' ');
        }
    }
    if !valid {
        return Err(TokenizerError::InvalidData);
    }
    Ok(file)
}

/// Writes the text of the model file of a pattern, special tokens and merge rules.
pub fn write_model(pattern: &str, specials: &Vec<SpecialToken>, merges: &Vec<MergeRule>) -> (out:
    String)
    ensures
        out@ == model_text(
            TokenizerModel {
                pattern: pattern@,
                specials: special_views(specials@),
                merges: merges@,
            },
        ),
{
    let ghost model = TokenizerModel {
        pattern: pattern@,
        specials: special_views(specials@),
        merges: merges@,
    };
    let ghost ls = model_lines(model);
    let n: usize = specials.len();
    let m: usize = merges.len();
    let mut out = String::new();
    proof {
        assert(ls.len() == 3 + n + m);
        assert(join_lines(ls.take(0)) =~= Seq::<char>::empty());
        lemma_join_take(ls, 0);
        lemma_join_take(ls, 1);
        lemma_join_take(ls, 2);
    }
    out.append("quicktok v1");
    out.push('\n');
    assert(out@ =~= join_lines(ls.take(1)));
    out.append(pattern);
    out.push('\n');
    assert(out@ =~= join_lines(ls.take(2)));
    push_decimal(&mut out, n);
    out.push('\n');
    assert(out@ =~= join_lines(ls.take(3)));
    let mut i: usize = 0;
    while i < n
        invariant
            i <= n,
            n == specials@.len(),
            m == merges@.len(),
            ls == model_lines(model),
            model.specials == special_views(specials@),
            ls.len() == 3 + n + m,
            out@ == join_lines(ls.take(3 + i)),
        decreases n - i,
    {
        proof {
            lemma_join_take(ls, 3 + i);
            assert(ls[3 + i] == special_line(specials@[i as int]@));
        }
        out.append(specials[i].text.as_str());
        out.push(' ');
        push_decimal(&mut out, specials[i].id);
        out.push('\n');
        assert(out@ =~= join_lines(ls.take(3 + i + 1)));
        i = i + 1;
    }
    let mut j: usize = 0;
    while j < m
        invariant
            j <= m,
            n == specials@.len(),
            m == merges@.len(),
            ls == model_lines(model),
            model.merges == merges@,
            ls.len() == 3 + n + m,
            out@ == join_lines(ls.take(3 + n + j)),
        decreases m - j,
    {
        proof {
            lemma_join_take(ls, 3 + n + j);
            assert(ls[3 + n + j] == merge_line(merges@[j as int]));
        }
        push_decimal(&mut out, merges[j].left);
        out.push(' ');
        push_decimal(&mut out, merges[j].right);
        out.push('\n');
        assert(out@ =~= join_lines(ls.take(3 + n + j + 1)));
        j = j + 1;
    }
    assert(ls.take(3 + n + m) =~= ls);
    out
}

/// Behind a character that does not occur again, that character is the last
/// of its kind.
proof fn lemma_last_index_split(head: Seq<char>, c: char, tail: Seq<char>)
    requires
        forall|i: int| 0 <= i < tail.len() ==> tail[i] != c,
    ensures
        last_index_of(head + seq![c] + tail, c) == head.len(),
    decreases tail.len(),
{
    let text = head + seq![c] + tail;
    if tail.len() == 0 {
        assert(text.last() == c);
    } else {
        assert(text.last() == tail.last());
        assert(text.drop_last() =~= head + seq![c] + tail.drop_last());
        lemma_last_index_split(head, c, tail.drop_last());
    }
}

/// The notation of a number holds neither a space nor a line feed.
proof fn lemma_decimal_plain(n: nat)
    ensures
        one_line(decimal(n)),
        forall|i: int| 0 <= i < decimal(n).len() ==> decimal(n)[i] != ' ',
{
    lemma_decimal_digits(n);
    assert forall|i: int| 0 <= i < decimal(n).len() implies decimal(n)[i] != ' ' && decimal(n)[i]
        != '\n' by {
        assert(is_digit(decimal(n)[i]));
    }
}

/// Reading the line of a special token gives the special token back.
pub proof fn lemma_parse_special_line(special: SpecialTokenView)
    ensures
        parse_special(special_line(special)) == Some(special),
        one_line(special.text) ==> one_line(special_line(special)),
{
    let digits = decimal(special.id as nat);
    let line = special_line(special);
    lemma_decimal_plain(special.id as nat);
    lemma_last_index_split(special.text, ' ', digits);
    lemma_parse_decimal(special.id);
    let k = special.text.len() as int;
    assert(line.skip(k + 1) =~= digits);
    assert(line.take(k) =~= special.text);
}

/// Reading the line of a merge rule gives the rule back, with the id that the
/// place of the line stands for.
pub proof fn lemma_parse_merge_line(rule: MergeRule)
    ensures
        parse_rule(merge_line(rule), rule.id) == Some(rule),
        one_line(merge_line(rule)),
{
    let left = decimal(rule.left as nat);
    let right = decimal(rule.right as nat);
    let line = merge_line(rule);
    lemma_decimal_plain(rule.left as nat);
    lemma_decimal_plain(rule.right as nat);
    lemma_last_index_split(left, ' ', right);
    lemma_parse_decimal(rule.left);
    lemma_parse_decimal(rule.right);
    let k = left.len() as int;
    assert(line.skip(k + 1) =~= right);
    assert(line.take(k) =~= left);
}

/// Reading the model file of a model gives the model back.
pub proof fn lemma_read_written(model: TokenizerModel)
    requires
        model.wf(),
    ensures
        parse_model(model_text(model)) == Some(model),
{
    let ls = model_lines(model);
    let n = model.specials.len() as int;
    let m = model.merges.len() as int;
    reveal_strlit("quicktok v1");
    assert(one_line(version_marker()));
    lemma_decimal_plain(n as nat);
    assert forall|k: int| 0 <= k < ls.len() implies one_line(#[trigger] ls[k]) by {
        if 3 <= k < 3 + n {
            assert(ls[k] == special_line(model.specials[k - 3]));
            lemma_parse_special_line(model.specials[k - 3]);
        } else if 3 + n <= k {
            assert(ls[k] == merge_line(model.merges[k - 3 - n]));
            lemma_parse_merge_line(model.merges[k - 3 - n]);
        }
    }
    lemma_lines_of_joined(ls);
    lemma_parse_decimal(n as usize);
    assert(ls[2] == decimal(n as nat));
    assert forall|i: int| 0 <= i < n implies #[trigger] special_at(ls, i) == Some(
        model.specials[i],
    ) by {
        assert(ls[3 + i] == special_line(model.specials[i]));
        lemma_parse_special_line(model.specials[i]);
    }
    assert forall|j: int| 0 <= j < m implies #[trigger] rule_at(ls, n, j) == Some(
        model.merges[j],
    ) by {
        assert(ls[3 + n + j] == merge_line(model.merges[j]));
        lemma_parse_merge_line(model.merges[j]);
        assert(model.merges[j].id == BASE_TOKENS + j);
    }
    let read = parse_lines(ls)->0;
    assert(parse_lines(ls) is Some);
    assert(read.specials =~= model.specials);
    assert(read.merges =~= model.merges);
    assert(read == model);
}

} // verus!
