//! Parameters of prepared statements: finding them in a text and putting literals in their place.
use crate::server::pg::error::{PgError, PgErrorView};
use crate::text;
use crate::text::{chars_of, parse_number, text_of, text_with_number};
use vstd::prelude::*;
use vstd::string::*;

verus! {

/// Where a string literal ends whose content is read from a place on: behind a quote that no second
/// one follows, or at the end of the text.
pub open spec fn string_end(sql: Seq<char>, at: int) -> int
    decreases sql.len() - at,
{
    if at < 0 || at >= sql.len() {
        sql.len() as int
    } else if sql[at] != '\'' {
        string_end(sql, at + 1)
    } else if at + 1 < sql.len() && sql[at + 1] == '\'' {
        string_end(sql, at + 2)
    } else {
        at + 1
    }
}

/// Where a comment ends: at the end of its line.
pub open spec fn comment_end(sql: Seq<char>, at: int) -> int
    decreases sql.len() - at,
{
    if at < 0 || at >= sql.len() {
        sql.len() as int
    } else if sql[at] == '\n' {
        at
    } else {
        comment_end(sql, at + 1)
    }
}

/// Where digits end.
pub open spec fn digits_end(sql: Seq<char>, at: int) -> int
    decreases sql.len() - at,
{
    if at < 0 || at >= sql.len() {
        sql.len() as int
    } else if text::is_digit(sql[at]) {
        digits_end(sql, at + 1)
    } else {
        at
    }
}

pub open spec fn comment_begins(sql: Seq<char>, at: int) -> bool {
    sql[at] == '-' && at + 1 < sql.len() && sql[at + 1] == '-'
}

/// The number behind a dollar sign.
pub open spec fn placeholder(sql: Seq<char>, at: int) -> Result<nat, text::NumberFault> {
    text::parsed_number(sql.subrange(at + 1, digits_end(sql, at + 1)), usize::MAX as nat)
}

proof fn lemma_string_end(sql: Seq<char>, at: int)
    requires
        0 <= at,
    ensures
        string_end(sql, at) <= sql.len(),
        at <= sql.len() ==> at <= string_end(sql, at),
    decreases sql.len() - at,
{
    if at < sql.len() {
        if sql[at] != '\'' {
            lemma_string_end(sql, at + 1);
        } else if at + 1 < sql.len() && sql[at + 1] == '\'' {
            lemma_string_end(sql, at + 2);
        }
    }
}

proof fn lemma_comment_end(sql: Seq<char>, at: int)
    requires
        0 <= at <= sql.len(),
    ensures
        at <= comment_end(sql, at) <= sql.len(),
    decreases sql.len() - at,
{
    if at < sql.len() && sql[at] != '\n' {
        lemma_comment_end(sql, at + 1);
    }
}

proof fn lemma_digits_end(sql: Seq<char>, at: int)
    requires
        0 <= at <= sql.len(),
    ensures
        at <= digits_end(sql, at) <= sql.len(),
    decreases sql.len() - at,
{
    if at < sql.len() && text::is_digit(sql[at]) {
        lemma_digits_end(sql, at + 1);
    }
}

/// The place behind what stands at a place: a string literal, a comment, a parameter or one
/// character.
pub open spec fn piece_end(sql: Seq<char>, at: int) -> int {
    if sql[at] == '\'' {
        string_end(sql, at + 1)
    } else if comment_begins(sql, at) {
        comment_end(sql, at)
    } else if sql[at] == '$' {
        digits_end(sql, at + 1)
    } else {
        at + 1
    }
}

pub proof fn lemma_piece_end(sql: Seq<char>, at: int)
    requires
        0 <= at < sql.len(),
    ensures
        at < piece_end(sql, at) <= sql.len(),
{
    lemma_string_end(sql, at + 1);
    lemma_digits_end(sql, at + 1);
    lemma_comment_end(sql, at);
    if comment_begins(sql, at) {
        lemma_comment_end(sql, at + 1);
        assert(sql[at] != '\n');
    }
}

/// The numbers of the parameters from a place on.
pub open spec fn numbers(sql: Seq<char>, at: int) -> Seq<nat>
    decreases sql.len() - at,
{
    if at < 0 || at >= sql.len() {
        Seq::empty()
    } else {
        proof {
            lemma_piece_end(sql, at);
        }
        let rest = numbers(sql, piece_end(sql, at));
        if sql[at] == '$' {
            match placeholder(sql, at) {
                Ok(number) => seq![number] + rest,
                Err(_) => rest,
            }
        } else {
            rest
        }
    }
}

/// Numbers without those that came before.
pub open spec fn distinct(found: Seq<nat>) -> Seq<nat>
    decreases found.len(),
{
    if found.len() == 0 {
        Seq::empty()
    } else {
        let rest = distinct(found.drop_last());
        if rest.contains(found.last()) {
            rest
        } else {
            rest.push(found.last())
        }
    }
}

/// Leaving out what came before leaves every number in, once.
pub proof fn lemma_distinct(found: Seq<nat>)
    ensures
        distinct(found).no_duplicates(),
        forall|n: nat| #[trigger] distinct(found).contains(n) <==> found.contains(n),
        largest(distinct(found)) == largest(found),
    decreases found.len(),
{
    if found.len() > 0 {
        let front = found.drop_last();
        let rest = distinct(front);
        let last = found.last();
        lemma_distinct(front);
        assert forall|n: nat| #[trigger] distinct(found).contains(n) <==> found.contains(n) by {
            if found.contains(n) {
                let i = choose|i: int| 0 <= i < found.len() && found[i] == n;
                if i < front.len() {
                    assert(front[i] == n);
                    assert(rest.contains(n));
                    let j = choose|j: int| 0 <= j < rest.len() && rest[j] == n;
                    assert(rest.push(last)[j] == n);
                } else {
                    assert(rest.push(last)[rest.len() as int] == n);
                }
            }
            if distinct(found).contains(n) {
                let i = choose|i: int| 0 <= i < distinct(found).len() && distinct(found)[i] == n;
                if i < rest.len() {
                    assert(rest[i] == n);
                    assert(rest.contains(n));
                    let j = choose|j: int| 0 <= j < front.len() && front[j] == n;
                    assert(found[j] == n);
                } else {
                    assert(found[found.len() - 1] == n);
                }
            }
        }
        if rest.contains(last) {
            lemma_largest(rest, last);
        } else {
            assert(rest.push(last).drop_last() =~= rest);
        }
    }
}

proof fn lemma_largest(found: Seq<nat>, n: nat)
    requires
        found.contains(n),
    ensures
        n <= largest(found),
    decreases found.len(),
{
    let i = choose|i: int| 0 <= i < found.len() && found[i] == n;
    if i < found.len() - 1 {
        assert(found.drop_last()[i] == n);
        lemma_largest(found.drop_last(), n);
    }
}

/// The largest of some numbers.
pub open spec fn largest(found: Seq<nat>) -> nat
    decreases found.len(),
{
    if found.len() == 0 {
        0
    } else {
        let rest = largest(found.drop_last());
        if found.last() > rest {
            found.last()
        } else {
            rest
        }
    }
}

pub open spec fn unbound(number: nat, count: nat) -> PgErrorView {
    PgErrorView {
        code: "08P01"@,
        message: "statement references $"@ + text::decimal(number) + (" but only "@ + text::decimal(
            count,
        ) + " parameters are bound"@),
    }
}

/// What stands in the result for what stands at a place.
pub open spec fn piece_text(sql: Seq<char>, literals: Seq<Seq<char>>, at: int) -> Result<
    Seq<char>,
    PgErrorView,
> {
    if sql[at] == '\'' || comment_begins(sql, at) {
        Ok(sql.subrange(at, piece_end(sql, at)))
    } else if sql[at] != '$' {
        Ok(seq![sql[at]])
    } else if digits_end(sql, at + 1) == at + 1 {
        Ok(seq!['$'])
    } else {
        match placeholder(sql, at) {
            Err(_) => Err(
                PgErrorView {
                    code: "08P01"@,
                    message: "parameter number is out of range"@,
                },
            ),
            Ok(number) => if 1 <= number <= literals.len() {
                Ok(literals[number - 1])
            } else {
                Err(unbound(number, literals.len()))
            },
        }
    }
}

/// The text from a place on with literals in place of its parameters.
pub open spec fn substituted(sql: Seq<char>, literals: Seq<Seq<char>>, at: int) -> Result<
    Seq<char>,
    PgErrorView,
>
    decreases sql.len() - at,
{
    if at < 0 || at >= sql.len() {
        Ok(Seq::empty())
    } else {
        proof {
            lemma_piece_end(sql, at);
        }
        match piece_text(sql, literals, at) {
            Err(error) => Err(error),
            Ok(piece) => match substituted(sql, literals, piece_end(sql, at)) {
                Err(error) => Err(error),
                Ok(rest) => Ok(piece + rest),
            },
        }
    }
}

/// Text with every quote doubled.
pub open spec fn doubled(content: Seq<char>) -> Seq<char>
    decreases content.len(),
{
    if content.len() == 0 {
        Seq::empty()
    } else if content.last() == '\'' {
        doubled(content.drop_last()) + seq!['\'', '\'']
    } else {
        doubled(content.drop_last()).push(content.last())
    }
}

/// Text as a string literal.
pub open spec fn quoted(content: Seq<char>) -> Seq<char> {
    seq!['\''] + doubled(content) + seq!['\'']
}

proof fn lemma_doubled_end(content: Seq<char>, before: Seq<char>, after: Seq<char>)
    ensures
        string_end(before + doubled(content) + after, before.len() as int) == string_end(
            before + doubled(content) + after,
            (before.len() + doubled(content).len()) as int,
        ),
    decreases content.len(),
{
    let whole = before + doubled(content) + after;
    if content.len() > 0 {
        let front = content.drop_last();
        let last = content.last();
        if last == '\'' {
            let tail = seq!['\'', '\''] + after;
            lemma_doubled_end(front, before, tail);
            assert(before + doubled(front) + tail =~= whole);
            let at = (before.len() + doubled(front).len()) as int;
            assert(whole[at] == '\'' && whole[at + 1] == '\'');
        } else {
            let tail = seq![last] + after;
            lemma_doubled_end(front, before, tail);
            assert(before + doubled(front) + tail =~= whole);
            let at = (before.len() + doubled(front).len()) as int;
            assert(whole[at] == last);
        }
    }
}

/// A quoted text is one string literal, whatever stands in it: read from its opening quote, it ends
/// at its own closing quote, unless a quote follows directly.
pub proof fn law_quoted_text_stays_inside(content: Seq<char>, before: Seq<char>, after: Seq<char>)
    requires
        after.len() == 0 || after[0] != '\'',
    ensures
        string_end(before + quoted(content) + after, before.len() as int + 1) == before.len() + quoted(
            content,
        ).len(),
{
    let start = before + seq!['\''];
    let tail = seq!['\''] + after;
    lemma_doubled_end(content, start, tail);
    let whole = before + quoted(content) + after;
    assert(start + doubled(content) + tail =~= whole);
    let at = (start.len() + doubled(content).len()) as int;
    assert(whole[at] == '\'');
    if after.len() > 0 {
        assert(whole[at + 1] == after[0]);
    }
}

/// A text without parameters stays as it is.
pub proof fn law_plain_text_is_kept(sql: Seq<char>, literals: Seq<Seq<char>>, at: int)
    requires
        0 <= at <= sql.len(),
        forall|i: int|
            at <= i < sql.len() && #[trigger] sql[i] == '$' ==> digits_end(sql, i + 1) == i + 1,
    ensures
        substituted(sql, literals, at) == Ok::<Seq<char>, PgErrorView>(sql.skip(at)),
    decreases sql.len() - at,
{
    if at < sql.len() {
        lemma_piece_end(sql, at);
        let end = piece_end(sql, at);
        law_plain_text_is_kept(sql, literals, end);
        let piece = piece_text(sql, literals, at)->Ok_0;
        assert(piece =~= sql.subrange(at, end));
        assert(piece + sql.skip(end) =~= sql.skip(at));
    } else {
        assert(sql.skip(at) =~= Seq::empty());
    }
}

fn find_string_end(sql: &Vec<char>, at: usize) -> (end: usize)
    requires
        at <= sql@.len(),
    ensures
        end == string_end(sql@, at as int),
        at <= end <= sql@.len(),
{
    let mut place: usize = at;
    while place < sql.len()
        invariant
            at <= place <= sql@.len(),
            string_end(sql@, at as int) == string_end(sql@, place as int),
        decreases sql@.len() - place,
    {
        if sql[place] != '\'' {
            place = place + 1;
        } else if sql.len() - place > 1 && sql[place + 1] == '\'' {
            place = place + 2;
        } else {
            return place + 1;
        }
    }
    place
}

fn find_comment_end(sql: &Vec<char>, at: usize) -> (end: usize)
    requires
        at <= sql@.len(),
    ensures
        end == comment_end(sql@, at as int),
        at <= end <= sql@.len(),
{
    let mut place: usize = at;
    while place < sql.len() && sql[place] != '\n'
        invariant
            at <= place <= sql@.len(),
            comment_end(sql@, at as int) == comment_end(sql@, place as int),
        decreases sql@.len() - place,
    {
        place = place + 1;
    }
    place
}

fn find_digits_end(sql: &Vec<char>, at: usize) -> (end: usize)
    requires
        at <= sql@.len(),
    ensures
        end == digits_end(sql@, at as int),
        at <= end <= sql@.len(),
{
    let mut place: usize = at;
    while place < sql.len() && sql[place] as u32 >= 48 && sql[place] as u32 <= 57
        invariant
            at <= place <= sql@.len(),
            digits_end(sql@, at as int) == digits_end(sql@, place as int),
        decreases sql@.len() - place,
    {
        place = place + 1;
    }
    place
}

fn is_comment(sql: &Vec<char>, at: usize) -> (yes: bool)
    requires
        at < sql@.len(),
    ensures
        yes == comment_begins(sql@, at as int),
{
    sql[at] == '-' && sql.len() - at > 1 && sql[at + 1] == '-'
}

fn find_piece_end(sql: &Vec<char>, at: usize) -> (end: usize)
    requires
        at < sql@.len(),
    ensures
        end == piece_end(sql@, at as int),
        at < end <= sql@.len(),
{
    proof {
        lemma_piece_end(sql@, at as int);
    }
    let length: usize = sql.len();
    assert(at < length);
    if sql[at] == '\'' {
        find_string_end(sql, at + 1)
    } else if is_comment(sql, at) {
        find_comment_end(sql, at)
    } else if sql[at] == '$' {
        find_digits_end(sql, at + 1)
    } else {
        at + 1
    }
}

pub open spec fn number_views(found: Seq<usize>) -> Seq<nat> {
    Seq::new(found.len(), |i: int| found[i] as nat)
}

/// The distinct numbers of the parameters in a text, outside string literals and comments, in the
/// order in which they first occur.
pub fn scan_parameters(sql: &str) -> (found: Vec<usize>)
    ensures
        number_views(found@) == distinct(numbers(sql@, 0)),
        found@.no_duplicates(),
        forall|n: usize| #[trigger] found@.contains(n) <==> numbers(sql@, 0).contains(n as nat),
{
    let chars = chars_of(sql);
    let mut found: Vec<usize> = Vec::new();
    let mut at: usize = 0;
    let ghost mut seen: Seq<nat> = Seq::empty();
    assert(seen + numbers(sql@, 0) =~= numbers(sql@, 0));
    assert(number_views(found@) =~= Seq::empty());
    while at < chars.len()
        invariant
            chars@ == sql@,
            at <= chars@.len(),
            seen + numbers(sql@, at as int) == numbers(sql@, 0),
            number_views(found@) == distinct(seen),
        decreases chars@.len() - at,
    {
        let end = find_piece_end(&chars, at);
        let ghost rest = numbers(sql@, end as int);
        if chars[at] == '$' {
            match parse_number(&chars, at + 1, end, usize::MAX as u64) {
                Ok(number) => {
                    let ghost before = number_views(found@);
                    let known = has_number(&found, number as usize);
                    if !known {
                        found.push(number as usize);
                        assert(number_views(found@) =~= before.push(number as nat));
                    }
                    proof {
                        assert(seen.push(number as nat) + rest =~= seen + (seq![number as nat]
                            + rest));
                        assert(seen.push(number as nat).drop_last() =~= seen);
                        seen = seen.push(number as nat);
                    }
                },
                Err(_) => {},
            }
        }
        at = end;
    }
    proof {
        assert(seen + numbers(sql@, at as int) =~= seen);
        lemma_distinct(seen);
        let views = number_views(found@);
        assert forall|i: int, j: int| 0 <= i < j < found@.len() implies found@[i] != found@[j] by {
            assert(views[i] != views[j]);
        }
        assert forall|n: usize| #[trigger] found@.contains(n) <==> seen.contains(n as nat) by {
            lemma_number_views(found@, n);
            assert(distinct(seen).contains(n as nat) <==> seen.contains(n as nat));
        }
    }
    found
}

proof fn lemma_number_views(found: Seq<usize>, n: usize)
    ensures
        found.contains(n) <==> number_views(found).contains(n as nat),
{
    let views = number_views(found);
    if found.contains(n) {
        let i = choose|i: int| 0 <= i < found.len() && found[i] == n;
        assert(views[i] == n as nat);
    }
    if views.contains(n as nat) {
        let i = choose|i: int| 0 <= i < views.len() && views[i] == n as nat;
        assert(found[i] == n);
    }
}

fn has_number(found: &Vec<usize>, wanted: usize) -> (yes: bool)
    ensures
        yes == number_views(found@).contains(wanted as nat),
{
    let mut index: usize = 0;
    while index < found.len()
        invariant
            index <= found@.len(),
            forall|i: int| 0 <= i < index ==> found@[i] != wanted,
        decreases found@.len() - index,
    {
        if found[index] == wanted {
            assert(number_views(found@)[index as int] == wanted as nat);
            return true;
        }
        index = index + 1;
    }
    proof {
        lemma_number_views(found@, wanted);
    }
    false
}

/// How many parameters a text has: the largest number among them.
pub fn count_parameters(sql: &str) -> (count: usize)
    ensures
        count as nat == largest(numbers(sql@, 0)),
{
    let found = scan_parameters(sql);
    let ghost views = number_views(found@);
    proof {
        lemma_distinct(numbers(sql@, 0));
    }
    let mut count: usize = 0;
    let mut index: usize = 0;
    assert(views.take(0) =~= Seq::empty());
    while index < found.len()
        invariant
            index <= found@.len(),
            views == number_views(found@),
            count as nat == largest(views.take(index as int)),
        decreases found@.len() - index,
    {
        assert(views.take(index + 1).drop_last() =~= views.take(index as int));
        if found[index] > count {
            count = found[index];
        }
        index = index + 1;
    }
    assert(views.take(index as int) =~= views);
    count
}

pub open spec fn literal_views(literals: Seq<String>) -> Seq<Seq<char>> {
    Seq::new(literals.len(), |i: int| literals[i]@)
}

fn put_piece(out: &mut String, sql: &Vec<char>, literals: &Vec<String>, at: usize, end: usize) -> (done:
    Result<(), PgError>)
    requires
        at < sql@.len(),
        end == piece_end(sql@, at as int),
        at < end <= sql@.len(),
    ensures
        match done {
            Ok(_) => piece_text(sql@, literal_views(literals@), at as int) matches Ok(piece)
                && final(out)@ == old(out)@ + piece,
            Err(error) => piece_text(sql@, literal_views(literals@), at as int) == Err::<
                Seq<char>,
                PgErrorView,
            >(error@),
        },
{
    if sql[at] == '\'' || is_comment(sql, at) {
        let piece = text_of(sql, at, end);
        out.append(piece.as_str());
    } else if sql[at] != '$' {
        out.push(sql[at]);
        assert(out@ =~= old(out)@ + seq![sql[at as int]]);
    } else if end == at + 1 {
        out.push('$');
        assert(out@ =~= old(out)@ + seq!['$']);
    } else {
        match parse_number(sql, at + 1, end, usize::MAX as u64) {
            Err(_) => {
                return Err(
                    PgError {
                        code: "08P01",
                        message: String::from_str("parameter number is out of range"),
                    },
                );
            },
            Ok(number) => {
                if number == 0 || number > literals.len() as u64 {
                    let tail = text_with_number(
                        " but only ",
                        literals.len() as u64,
                        " parameters are bound",
                    );
                    return Err(
                        PgError {
                            code: "08P01",
                            message: text_with_number(
                                "statement references $",
                                number,
                                tail.as_str(),
                            ),
                        },
                    );
                }
                let literal = &literals[number as usize - 1];
                out.append(literal.as_str());
            },
        }
    }
    Ok(())
}

/// A text with literals in place of its parameters; string literals and comments stay as they are.
pub fn substitute_parameters(sql: &str, literals: &Vec<String>) -> (result: Result<String, PgError>)
    ensures
        match result {
            Ok(text) => substituted(sql@, literal_views(literals@), 0) == Ok::<
                Seq<char>,
                PgErrorView,
            >(text@),
            Err(error) => substituted(sql@, literal_views(literals@), 0) == Err::<
                Seq<char>,
                PgErrorView,
            >(error@),
        },
{
    let ghost views = literal_views(literals@);
    let chars = chars_of(sql);
    let mut out = String::new();
    let mut at: usize = 0;
    proof {
        if substituted(sql@, views, 0) is Ok {
            assert(out@ + substituted(sql@, views, 0)->Ok_0 =~= substituted(sql@, views, 0)->Ok_0);
        }
    }
    while at < chars.len()
        invariant
            chars@ == sql@,
            views == literal_views(literals@),
            at <= chars@.len(),
            match substituted(sql@, views, at as int) {
                Ok(rest) => substituted(sql@, views, 0) == Ok::<Seq<char>, PgErrorView>(
                    out@ + rest,
                ),
                Err(error) => substituted(sql@, views, 0) == Err::<Seq<char>, PgErrorView>(error),
            },
        decreases chars@.len() - at,
    {
        let end = find_piece_end(&chars, at);
        let ghost before = out@;
        match put_piece(&mut out, &chars, literals, at, end) {
            Err(error) => {
                return Err(error);
            },
            Ok(_) => {},
        }
        proof {
            let piece = piece_text(sql@, views, at as int)->Ok_0;
            if substituted(sql@, views, end as int) is Ok {
                let rest = substituted(sql@, views, end as int)->Ok_0;
                assert(out@ + rest =~= before + (piece + rest));
            }
        }
        at = end;
    }
    assert(out@ + Seq::<char>::empty() =~= out@);
    Ok(out)
}

/// Text as a string literal.
pub fn quote_literal(content: &str) -> (literal: String)
    ensures
        literal@ == quoted(content@),
{
    let chars = chars_of(content);
    let mut out = String::new();
    out.push('\'');
    let mut index: usize = 0;
    assert(chars@.take(0) =~= Seq::empty());
    assert(out@ =~= seq!['\''] + doubled(chars@.take(0)));
    while index < chars.len()
        invariant
            index <= chars@.len(),
            out@ == seq!['\''] + doubled(chars@.take(index as int)),
        decreases chars@.len() - index,
    {
        assert(chars@.take(index + 1).drop_last() =~= chars@.take(index as int));
        if chars[index] == '\'' {
            out.push('\'');
        }
        out.push(chars[index]);
        assert(out@ =~= seq!['\''] + doubled(chars@.take(index + 1)));
        index = index + 1;
    }
    assert(chars@.take(index as int) =~= content@);
    out.push('\'');
    assert(out@ =~= quoted(content@));
    out
}

} // verus!
