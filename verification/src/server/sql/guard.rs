//! Which texts the outside parser can be called on: it stops the program on some.
//!
//! It does so in three places: at a table option `AUTO_INCREMENT` whose number does not fit in 32
//! bits, and behind `GRANTED BY` at the end of GRANT and of REVOKE where no identifier follows. Such
//! words can also stand where the parser never comes upon them, or takes them for something else. So
//! the text is cut before the last of them, and the parser is asked what it makes of the front: for
//! the option it then misses a number, and behind `GRANTED BY` it takes a name that is put there. The
//! front is looked at in the same way before the parser is called on it.
use crate::server::sql::tree;
use crate::server::sql::tree::{
    read_statement, read_tokens, PlacedTree, PlacedView, TokenTree, TokenTreeView,
};
use crate::text;
use crate::text::{chars_of, parse_number, text_of};
use vstd::prelude::*;
use vstd::string::*;

verus! {

/// What the parser can be stopped by.
#[derive(Clone, Copy, PartialEq, Eq, Structural)]
pub enum Fault {
    /// A large number of a table option.
    Number,
    /// No name behind `GRANTED BY`.
    Granter,
}

pub open spec fn token_views(tokens: Seq<PlacedTree>) -> Seq<PlacedView> {
    Seq::new(tokens.len(), |i: int| tokens[i]@)
}

/// Tokens without white space and comments.
pub open spec fn significant(tokens: Seq<PlacedView>) -> Seq<PlacedView>
    decreases tokens.len(),
{
    if tokens.len() == 0 {
        Seq::empty()
    } else if tokens.last().token is Space {
        significant(tokens.drop_last())
    } else {
        significant(tokens.drop_last()).push(tokens.last())
    }
}

/// Whether a keyword stands at a place.
pub open spec fn has_word(tokens: Seq<PlacedView>, at: int, word: Seq<char>) -> bool {
    0 <= at < tokens.len() && tokens[at].token == (TokenTreeView::Word { keyword: word })
}

/// Whether a keyword stands anywhere.
pub open spec fn mentions(tokens: Seq<PlacedView>, word: Seq<char>) -> bool {
    exists|i: int| 0 <= i < tokens.len() && #[trigger] has_word(tokens, i, word)
}

/// Whether what stands at a place can be an identifier.
pub open spec fn is_identifier(tokens: Seq<PlacedView>, at: int) -> bool {
    0 <= at < tokens.len() && (tokens[at].token is Word || tokens[at].token is Text)
}

/// Whether an equals sign stands at a place.
pub open spec fn is_equal(tokens: Seq<PlacedView>, at: int) -> bool {
    0 <= at < tokens.len() && tokens[at].token is Equal
}

/// Whether a number that does not fit in 32 bits stands at a place, as that of the option.
pub open spec fn large_number(tokens: Seq<PlacedView>, at: int) -> bool {
    &&& 0 <= at < tokens.len()
    &&& tokens[at].token matches TokenTreeView::Number { digits } && text::parsed_number(
        digits,
        u32::MAX as nat,
    ) is Err
    &&& has_word(tokens, at - 1, "AUTO_INCREMENT"@) || (is_equal(tokens, at - 1) && has_word(
        tokens,
        at - 2,
        "AUTO_INCREMENT"@,
    ))
}

/// Whether `GRANTED BY` stands at a place without an identifier behind it.
pub open spec fn nameless_granter(tokens: Seq<PlacedView>, at: int) -> bool {
    has_word(tokens, at, "GRANTED"@) && has_word(tokens, at + 1, "BY"@) && !is_identifier(
        tokens,
        at + 2,
    )
}

/// The last of the first tokens that the parser can be stopped by.
pub open spec fn last_fault(tokens: Seq<PlacedView>, count: nat) -> Option<(nat, Fault)>
    decreases count,
{
    if count == 0 {
        None
    } else {
        let at = (count - 1) as nat;
        if large_number(tokens, at as int) {
            Some((at, Fault::Number))
        } else if nameless_granter(tokens, at as int) {
            Some((at, Fault::Granter))
        } else {
            last_fault(tokens, at)
        }
    }
}

/// Whether EXPLAIN, which hides what is wrong with the statement behind it, can stand before a
/// statement.
pub open spec fn hides(tokens: Seq<PlacedView>) -> bool {
    &&& mentions(tokens, "EXPLAIN"@) || mentions(tokens, "DESCRIBE"@)
    &&& has_word(tokens, 0, "PREPARE"@) || has_word(tokens, 0, "EXPLAIN"@) || has_word(
        tokens,
        0,
        "DESCRIBE"@,
    ) || mentions(tokens, "PROCEDURE"@)
}

/// Whether a statement is of a kind that the parser can be stopped by.
pub open spec fn leads(tokens: Seq<PlacedView>) -> bool {
    ||| has_word(tokens, 0, "CREATE"@)
    ||| has_word(tokens, 0, "GRANT"@)
    ||| has_word(tokens, 0, "REVOKE"@)
    ||| has_word(tokens, 0, "PREPARE"@)
}

/// The place of the statement behind EXPLAIN and what belongs to it, if a text begins so.
pub open spec fn explained(tokens: Seq<PlacedView>) -> Option<int> {
    if !has_word(tokens, 0, "EXPLAIN"@) && !has_word(tokens, 0, "DESCRIBE"@) {
        None
    } else {
        let a = if has_word(tokens, 1, "ANALYZE"@) {
            2
        } else {
            1int
        };
        let b = if has_word(tokens, a, "VERBOSE"@) {
            a + 1
        } else {
            a
        };
        if !has_word(tokens, b, "FORMAT"@) {
            Some(b)
        } else if has_word(tokens, b + 1, "TEXT"@) || has_word(tokens, b + 1, "GRAPHVIZ"@)
            || has_word(tokens, b + 1, "JSON"@) {
            Some(b + 2)
        } else {
            Some(tokens.len() as int)
        }
    }
}

/// Where a line and a column of a text are, from a place on whose line has the number one.
pub open spec fn char_place(chars: Seq<char>, at: int, line: u64, column: u64) -> int
    decreases chars.len() - at,
{
    if line <= 1 {
        at + column - 1
    } else if at < 0 || at >= chars.len() {
        at
    } else if chars[at] == '\n' {
        char_place(chars, at + 1, (line - 1) as u64, column)
    } else {
        char_place(chars, at + 1, line, column)
    }
}

/// A name that is longer than so many characters.
pub open spec fn long_name(length: nat) -> Seq<char> {
    Seq::new(length + 1, |i: int| 'a')
}

/// As many times the word that ends a block.
pub open spec fn ends(count: nat) -> Seq<char>
    decreases count,
{
    if count == 0 {
        Seq::empty()
    } else {
        ends((count - 1) as nat) + " END"@
    }
}

/// The front of a text, up to what the parser can be stopped by, with a name put behind it where one
/// is missing, and with all blocks ended that can be open.
pub open spec fn front(chars: Seq<char>, length: nat, fault: Fault) -> Seq<char> {
    match fault {
        Fault::Number => chars.take(length as int),
        Fault::Granter => chars.take(length as int) + " GRANTED BY "@ + long_name(length) + ends(
            length,
        ),
    }
}

/// Whether the parser, called on the front of a text, comes to its end as it comes to the fault there.
pub open spec fn comes_upon(chars: Seq<char>, length: nat, fault: Fault) -> bool {
    let read = tree::sql_statement(front(chars, length, fault));
    match fault {
        Fault::Number => read matches Err(detail) && detail
            == "sql parser error: Expected literal int, found: EOF"@,
        Fault::Granter => read matches Ok(found) && found.granter == Some(long_name(length)),
    }
}

/// Where the front of a text has its last fault, if it has one, and whether EXPLAIN may hide it.
pub open spec fn next_fault(text: Seq<char>) -> Option<(int, Fault, bool)> {
    match tree::sql_tokens(text) {
        Err(_) => None,
        Ok(all) => {
            let tokens = significant(all);
            match last_fault(tokens, tokens.len()) {
                None => None,
                Some((at, fault)) => Some(
                    (
                        char_place(text, 0, tokens[at as int].line, tokens[at as int].column),
                        fault,
                        hides(tokens),
                    ),
                ),
            }
        },
    }
}

/// Whether the parser is not stopped by the front of a text: the front has nothing that could stop it,
/// or it comes past the last such thing and is not stopped before.
pub open spec fn passes(chars: Seq<char>, length: nat, fault: Fault) -> bool
    decreases length,
{
    match next_fault(front(chars, length, fault)) {
        None => true,
        Some((cut, next, hidden)) => !hidden && 0 <= cut < length && passes(
            chars,
            cut as nat,
            next,
        ) && !comes_upon(chars, cut as nat, next),
    }
}

/// Whether the parser is not stopped by a text. Where EXPLAIN stands before, that is decided by what
/// is behind it.
pub open spec fn readable(sql: Seq<char>) -> bool
    decreases sql.len(),
{
    match tree::sql_tokens(sql) {
        Err(_) => true,
        Ok(all) => {
            let tokens = significant(all);
            match explained(tokens) {
                Some(at) => {
                    let cut = char_place(sql, 0, tokens[at].line, tokens[at].column);
                    at >= tokens.len() || (0 < cut <= sql.len() && readable(sql.skip(cut)))
                },
                None => !leads(tokens) || passes(sql, sql.len(), Fault::Number),
            }
        },
    }
}

/// Whether the parser can be called on a text: it is not stopped by it.
pub open spec fn may_read(text: Seq<char>) -> bool {
    ||| readable(text)
    ||| exists|chars: Seq<char>, length: nat, fault: Fault| #[trigger]
        passes(chars, length, fault) && text == front(chars, length, fault)
}

fn keep_significant(tokens: Vec<PlacedTree>) -> (kept: Vec<PlacedTree>)
    ensures
        token_views(kept@) == significant(token_views(tokens@)),
{
    let ghost views = token_views(tokens@);
    let mut rest = crate::list::reversed(tokens);
    let mut kept: Vec<PlacedTree> = Vec::new();
    let ghost mut done: int = 0;
    assert(views.take(0) =~= Seq::empty());
    assert(token_views(kept@) =~= Seq::empty());
    while rest.len() > 0
        invariant
            0 <= done <= views.len(),
            rest@.len() == views.len() - done,
            forall|i: int|
                0 <= i < rest@.len() ==> (#[trigger] rest@[i])@ == views[views.len() - 1 - i],
            token_views(kept@) == significant(views.take(done)),
        decreases rest@.len(),
    {
        let ghost last = rest@[rest@.len() - 1];
        let ghost before = token_views(kept@);
        let token = rest.pop().unwrap();
        proof {
            assert(token@ == views[done]);
            assert(views.take(done + 1).drop_last() =~= views.take(done));
            done = done + 1;
        }
        if !matches!(token.token, TokenTree::Space) {
            kept.push(token);
            assert(token_views(kept@) =~= before.push(token@));
        }
    }
    assert(views.take(done) =~= views);
    kept
}

fn is_word(tokens: &Vec<PlacedTree>, at: usize, word: &str) -> (yes: bool)
    ensures
        yes == has_word(token_views(tokens@), at as int, word@),
{
    if at >= tokens.len() {
        return false;
    }
    match &tokens[at].token {
        TokenTree::Word { keyword } => crate::engine::schema::same_text(keyword.as_str(), word),
        _ => false,
    }
}

fn has_anywhere(tokens: &Vec<PlacedTree>, word: &str) -> (yes: bool)
    ensures
        yes == mentions(token_views(tokens@), word@),
{
    let mut place: usize = 0;
    while place < tokens.len()
        invariant
            place <= tokens@.len(),
            forall|i: int| 0 <= i < place ==> !#[trigger] has_word(token_views(tokens@), i, word@),
        decreases tokens@.len() - place,
    {
        if is_word(tokens, place, word) {
            return true;
        }
        place = place + 1;
    }
    false
}

fn is_large_number(tokens: &Vec<PlacedTree>, at: usize) -> (yes: bool)
    requires
        at < tokens@.len(),
    ensures
        yes == large_number(token_views(tokens@), at as int),
{
    let ghost views = token_views(tokens@);
    assert(views[at as int] == tokens@[at as int]@);
    let large = match &tokens[at].token {
        TokenTree::Number { digits } => {
            let chars = chars_of(digits.as_str());
            let parsed = parse_number(&chars, 0, chars.len(), u32::MAX as u64);
            assert(chars@.subrange(0, chars@.len() as int) =~= digits@);
            parsed.is_err()
        },
        _ => false,
    };
    if !large || at == 0 {
        return false;
    }
    assert(views[at - 1] == tokens@[at - 1]@);
    is_word(tokens, at - 1, "AUTO_INCREMENT") || (at > 1 && matches!(
        &tokens[at - 1].token,
        TokenTree::Equal
    ) && is_word(tokens, at - 2, "AUTO_INCREMENT"))
}

fn is_nameless_granter(tokens: &Vec<PlacedTree>, at: usize) -> (yes: bool)
    requires
        at < tokens@.len(),
    ensures
        yes == nameless_granter(token_views(tokens@), at as int),
{
    let count: usize = tokens.len();
    assert(count == tokens@.len());
    if !is_word(tokens, at, "GRANTED") || !is_word(tokens, at + 1, "BY") {
        return false;
    }
    let next: usize = at + 2;
    if next >= tokens.len() {
        return true;
    }
    assert(token_views(tokens@)[next as int] == tokens@[next as int]@);
    !matches!(&tokens[next].token, TokenTree::Word { .. } | TokenTree::Text)
}

fn find_last_fault(tokens: &Vec<PlacedTree>) -> (found: Option<(usize, Fault)>)
    ensures
        match found {
            Some((at, fault)) => at < tokens@.len() && last_fault(
                token_views(tokens@),
                tokens@.len(),
            ) == Some((at as nat, fault)),
            None => last_fault(token_views(tokens@), tokens@.len()) is None,
        },
{
    let mut count: usize = tokens.len();
    while count > 0
        invariant
            count <= tokens@.len(),
            last_fault(token_views(tokens@), tokens@.len()) == last_fault(
                token_views(tokens@),
                count as nat,
            ),
        decreases count,
    {
        let at: usize = count - 1;
        if is_large_number(tokens, at) {
            return Some((at, Fault::Number));
        }
        if is_nameless_granter(tokens, at) {
            return Some((at, Fault::Granter));
        }
        count = at;
    }
    None
}

fn can_hide(tokens: &Vec<PlacedTree>) -> (yes: bool)
    ensures
        yes == hides(token_views(tokens@)),
{
    (has_anywhere(tokens, "EXPLAIN") || has_anywhere(tokens, "DESCRIBE")) && (is_word(
        tokens,
        0,
        "PREPARE",
    ) || is_word(tokens, 0, "EXPLAIN") || is_word(tokens, 0, "DESCRIBE") || has_anywhere(
        tokens,
        "PROCEDURE",
    ))
}

fn find_explained(tokens: &Vec<PlacedTree>) -> (place: Option<usize>)
    ensures
        match place {
            Some(place) => explained(token_views(tokens@)) == Some(place as int),
            None => explained(token_views(tokens@)) is None,
        },
{
    if !is_word(tokens, 0, "EXPLAIN") && !is_word(tokens, 0, "DESCRIBE") {
        return None;
    }
    let a: usize = if is_word(tokens, 1, "ANALYZE") {
        2
    } else {
        1
    };
    let b: usize = if is_word(tokens, a, "VERBOSE") {
        a + 1
    } else {
        a
    };
    if !is_word(tokens, b, "FORMAT") {
        Some(b)
    } else if is_word(tokens, b + 1, "TEXT") || is_word(tokens, b + 1, "GRAPHVIZ") || is_word(
        tokens,
        b + 1,
        "JSON",
    ) {
        Some(b + 2)
    } else {
        Some(tokens.len())
    }
}

/// Where a line and a column of a text are, if that is inside the text or at its end.
fn find_place(chars: &Vec<char>, line: u64, column: u64) -> (place: Option<usize>)
    ensures
        match place {
            Some(place) => place == char_place(chars@, 0, line, column) && place <= chars@.len(),
            None => !(0 <= char_place(chars@, 0, line, column) <= chars@.len()),
        },
{
    let mut at: usize = 0;
    let mut left: u64 = line;
    while left > 1 && at < chars.len()
        invariant
            at <= chars@.len(),
            char_place(chars@, 0, line, column) == char_place(chars@, at as int, left, column),
        decreases chars@.len() - at,
    {
        if chars[at] == '\n' {
            left = left - 1;
        }
        at = at + 1;
    }
    if left > 1 {
        return Some(at);
    }
    let room: usize = chars.len() - at;
    if column == 0 {
        if at == 0 {
            None
        } else {
            Some(at - 1)
        }
    } else if column - 1 > room as u64 {
        None
    } else {
        Some(at + (column - 1) as usize)
    }
}

/// The front of a text as it is given to the parser.
fn front_text(chars: &Vec<char>, length: usize, fault: Fault) -> (made: String)
    requires
        length <= chars@.len(),
    ensures
        made@ == front(chars@, length as nat, fault),
{
    let mut made = text_of(chars, 0, length);
    assert(chars@.subrange(0, length as int) =~= chars@.take(length as int));
    match fault {
        Fault::Number => made,
        Fault::Granter => {
            made.append(" GRANTED BY ");
            let ghost start = made@;
            made.push('a');
            assert(made@ =~= start + long_name(0));
            let mut count: usize = 0;
            while count < length
                invariant
                    count <= length,
                    made@ == start + long_name(count as nat),
                decreases length - count,
            {
                made.push('a');
                count = count + 1;
                assert(made@ =~= start + long_name(count as nat));
            }
            let ghost named = made@;
            assert(named + ends(0) =~= named);
            count = 0;
            while count < length
                invariant
                    count <= length,
                    made@ == named + ends(count as nat),
                decreases length - count,
            {
                made.append(" END");
                count = count + 1;
                assert(made@ =~= named + ends(count as nat));
            }
            assert(made@ =~= front(chars@, length as nat, fault));
            made
        },
    }
}

/// What the front of a text leads to, if that is another front of it that can be looked at.
enum Next {
    /// Nothing in it could stop the parser.
    Clean,
    /// It is to be looked at up to its last fault.
    Cut(usize, Fault),
    /// It cannot be told whether it stops the parser.
    Unknown,
}

fn find_next(chars: &Vec<char>, length: usize, fault: Fault) -> (next: Next)
    requires
        length <= chars@.len(),
    ensures
        match next {
            Next::Clean => next_fault(front(chars@, length as nat, fault)) is None,
            Next::Cut(cut, found) => cut < length && next_fault(front(chars@, length as nat, fault))
                == Some((cut as int, found, false)),
            Next::Unknown => !passes(chars@, length as nat, fault),
        },
{
    let made = front_text(chars, length, fault);
    let tokens = match read_tokens(made.as_str()) {
        Err(_) => {
            return Next::Clean;
        },
        Ok(tokens) => keep_significant(tokens),
    };
    match find_last_fault(&tokens) {
        None => Next::Clean,
        Some((at, found)) => {
            assert(token_views(tokens@)[at as int] == tokens@[at as int]@);
            let all = chars_of(made.as_str());
            match find_place(&all, tokens[at].line, tokens[at].column) {
                Some(cut) => if cut < length && !can_hide(&tokens) {
                    Next::Cut(cut, found)
                } else {
                    Next::Unknown
                },
                None => Next::Unknown,
            }
        },
    }
}

fn finds(chars: &Vec<char>, length: usize, fault: Fault) -> (yes: bool)
    requires
        length < chars@.len(),
        passes(chars@, length as nat, fault),
    ensures
        yes == comes_upon(chars@, length as nat, fault),
{
    let whole: usize = chars.len();
    assert(length < whole);
    let made = front_text(chars, length, fault);
    assert(may_read(made@));
    let read = read_statement(made.as_str());
    match fault {
        Fault::Number => match read {
            Err(detail) => crate::engine::schema::same_text(
                detail.as_str(),
                "sql parser error: Expected literal int, found: EOF",
            ),
            Ok(_) => false,
        },
        Fault::Granter => match read {
            Ok(found) => match found.granter {
                Some(name) => {
                    let text = chars_of(name.as_str());
                    is_long_name(&text, length)
                },
                None => false,
            },
            Err(_) => false,
        },
    }
}

fn is_long_name(text: &Vec<char>, length: usize) -> (yes: bool)
    requires
        length < usize::MAX,
    ensures
        yes == (text@ == long_name(length as nat)),
{
    if text.len() != length + 1 {
        return false;
    }
    let mut at: usize = 0;
    while at < text.len()
        invariant
            at <= text@.len(),
            text@.len() == length + 1,
            forall|i: int| 0 <= i < at ==> #[trigger] text@[i] == 'a',
        decreases text@.len() - at,
    {
        if text[at] != 'a' {
            assert(long_name(length as nat)[at as int] == 'a');
            return false;
        }
        at = at + 1;
    }
    assert(text@ =~= long_name(length as nat));
    true
}

/// Whether fronts of a text lead from each to the next.
spec fn is_chain(chars: Seq<char>, fronts: Seq<(usize, Fault)>) -> bool {
    forall|i: int, j: int|
        0 <= i < fronts.len() && j == i + 1 && j < fronts.len() ==> fronts[j].0 < fronts[i].0
            && next_fault(
            front(chars, (#[trigger] fronts[i]).0 as nat, fronts[i].1),
        ) == Some(((#[trigger] fronts[j]).0 as int, fronts[j].1, false))
}

/// If a front does not pass, none that leads to it does.
proof fn lemma_chain(chars: Seq<char>, fronts: Seq<(usize, Fault)>, at: int)
    requires
        is_chain(chars, fronts),
        0 <= at < fronts.len(),
        !passes(chars, fronts[at].0 as nat, fronts[at].1),
    ensures
        !passes(chars, fronts[0].0 as nat, fronts[0].1),
    decreases at,
{
    if at > 0 {
        assert(fronts[at - 1].0 > fronts[at].0);
        lemma_chain(chars, fronts, at - 1);
    }
}

fn check_passes(chars: &Vec<char>) -> (yes: bool)
    ensures
        yes == passes(chars@, chars@.len(), Fault::Number),
{
    let mut fronts: Vec<(usize, Fault)> = Vec::new();
    fronts.push((chars.len(), Fault::Number));
    loop
        invariant
            fronts@.len() > 0,
            fronts@[0] == (chars@.len() as usize, Fault::Number),
            chars@.len() <= usize::MAX,
            fronts@[fronts@.len() - 1].0 <= chars@.len(),
            forall|i: int| 0 < i < fronts@.len() ==> (#[trigger] fronts@[i]).0 < chars@.len(),
            is_chain(chars@, fronts@),
        ensures
            passes(
                chars@,
                fronts@[fronts@.len() - 1].0 as nat,
                fronts@[fronts@.len() - 1].1,
            ),
        decreases fronts@[fronts@.len() - 1].0,
    {
        let last: usize = fronts.len() - 1;
        let length: usize = fronts[last].0;
        let fault = fronts[last].1;
        match find_next(chars, length, fault) {
            Next::Clean => {
                break;
            },
            Next::Cut(cut, found) => {
                let ghost before = fronts@;
                fronts.push((cut, found));
                proof {
                    assert forall|i: int, j: int|
                        0 <= i < fronts@.len() && j == i + 1 && j < fronts@.len() implies fronts@[j].0
                        < fronts@[i].0 && next_fault(
                        front(chars@, (#[trigger] fronts@[i]).0 as nat, fronts@[i].1),
                    ) == Some(((#[trigger] fronts@[j]).0 as int, fronts@[j].1, false)) by {
                        if j < before.len() {
                            assert(fronts@[i] == before[i] && fronts@[j] == before[j]);
                        }
                    }
                }
            },
            Next::Unknown => {
                proof {
                    lemma_chain(chars@, fronts@, last as int);
                }
                return false;
            },
        }
    }
    let mut at: usize = fronts.len() - 1;
    while at > 0
        invariant
            at < fronts@.len(),
            fronts@[0] == (chars@.len() as usize, Fault::Number),
            chars@.len() <= usize::MAX,
            forall|i: int| 0 < i < fronts@.len() ==> (#[trigger] fronts@[i]).0 < chars@.len(),
            is_chain(chars@, fronts@),
            passes(chars@, fronts@[at as int].0 as nat, fronts@[at as int].1),
        decreases at,
    {
        let length: usize = fronts[at].0;
        let fault = fronts[at].1;
        assert(fronts@[at - 1].0 > fronts@[at as int].0);
        if finds(chars, length, fault) {
            proof {
                lemma_chain(chars@, fronts@, at - 1);
            }
            return false;
        }
        at = at - 1;
    }
    true
}

/// Whether the parser is not stopped by a text.
pub fn is_readable(sql: &str) -> (yes: bool)
    ensures
        yes == readable(sql@),
{
    let mut chars = chars_of(sql);
    loop
        invariant
            readable(sql@) == readable(chars@),
        decreases chars@.len(),
    {
        let count: usize = chars.len();
        let made = text_of(&chars, 0, count);
        assert(made@ =~= chars@);
        let tokens = match read_tokens(made.as_str()) {
            Err(_) => {
                return true;
            },
            Ok(tokens) => keep_significant(tokens),
        };
        match find_explained(&tokens) {
            Some(at) => {
                if at >= tokens.len() {
                    return true;
                }
                assert(token_views(tokens@)[at as int] == tokens@[at as int]@);
                match find_place(&chars, tokens[at].line, tokens[at].column) {
                    Some(cut) => {
                        if cut == 0 {
                            return false;
                        }
                        let rest = text_of(&chars, cut, count);
                        assert(rest@ =~= chars@.skip(cut as int));
                        chars = chars_of(rest.as_str());
                    },
                    None => {
                        return false;
                    },
                }
            },
            None => {
                let leading = is_word(&tokens, 0, "CREATE") || is_word(&tokens, 0, "GRANT")
                    || is_word(&tokens, 0, "REVOKE") || is_word(&tokens, 0, "PREPARE");
                return !leading || check_passes(&chars);
            },
        }
    }
}

} // verus!
