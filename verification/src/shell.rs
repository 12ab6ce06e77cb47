//! Shell commands, as the device's shell service takes them.

use vstd::prelude::*;

use crate::error::{DeviceError, ErrorView, Outcome, Result};
use crate::text;

verus! {

/// The pattern that finds a character which a shell may treat specially.
pub const SPECIAL: &'static str = "[^A-Za-z0-9_@%+=:,./-]";

/// A character that every shell takes as it is.
pub open spec fn is_plain(c: char) -> bool {
    ||| 'A' <= c <= 'Z'
    ||| 'a' <= c <= 'z'
    ||| '0' <= c <= '9'
    ||| c == '_'
    ||| c == '@'
    ||| c == '%'
    ||| c == '+'
    ||| c == '='
    ||| c == ':'
    ||| c == ','
    ||| c == '.'
    ||| c == '/'
    ||| c == '-'
}

/// Some character of the text is not plain.
pub open spec fn has_special(s: Seq<char>) -> bool {
    exists|i: int| 0 <= i < s.len() && !is_plain(#[trigger] s[i])
}

/// `regex::Regex::new` and `regex::Regex::is_match`, for the pattern `SPECIAL`:
/// it is a negated class, is well formed, and is found where a character is
/// outside the class.
#[verifier::external_body]
fn regex_is_match(pattern: &str, s: &str) -> (r: bool)
    requires
        pattern@ == SPECIAL@,
    ensures
        r == has_special(s@),
{
    regex::Regex::new(pattern).unwrap().is_match(s)
}

/// Whether some character of the text is not plain.
pub fn needs_care(s: &str) -> (r: bool)
    ensures
        r == has_special(s@),
{
    regex_is_match(SPECIAL, s)
}

/// The text begins and ends with the same kind of quote.
pub open spec fn has_outer_quotes(s: Seq<char>) -> bool {
    ||| s.len() > 0 && s[0] == '"' && s.last() == '"'
    ||| s.len() > 0 && s[0] == '\'' && s.last() == '\''
}

/// Whether the text begins and ends with the same kind of quote.
pub fn is_quoted(s: &str) -> (r: bool)
    ensures
        r == has_outer_quotes(s@),
{
    let h: Vec<char> = text::chars_of(s);
    if h.len() == 0 {
        return false;
    }
    let first: char = h[0];
    let last: char = h[h.len() - 1];
    (first == '"' && last == '"') || (first == '\'' && last == '\'')
}

/// The request that runs a shell command. A command that is run as a package
/// goes through `run-as`, and is put in quotes unless it has quotes already or
/// holds special characters; single quotes in it are then taken out of their
/// quotation. A command that begins with `su` is never wrapped.
pub open spec fn shell_request(
    command: Seq<char>,
    run_as: bool,
    package: Option<Seq<char>>,
) -> Outcome<Seq<char>> {
    if "su"@.is_prefix_of(command) || !run_as {
        Ok("shell:"@ + command)
    } else {
        match package {
            None => Err(ErrorView::MissingPackage),
            Some(name) => Ok(
                "shell:run-as "@ + name + " "@ + (if has_outer_quotes(command) {
                    command
                } else if has_special(command) {
                    text::replace_all(command, "'"@, "'\"'\"'"@)
                } else {
                    "\""@ + command + "\""@
                }),
            ),
        }
    }
}

/// The contents of an optional string.
pub open spec fn option_view(s: Option<String>) -> Option<Seq<char>> {
    match s {
        Some(s) => Some(s@),
        None => None,
    }
}

/// Prepares the request that runs a shell command.
pub fn wrap_command(command: &str, run_as: bool, package: &Option<String>) -> (r: Result<String>)
    ensures
        crate::error::outcome(r) == shell_request(command@, run_as, option_view(*package)),
{
    if text::starts_with(command, "su") {
        return Ok(text::concat2("shell:", command));
    }
    if !run_as {
        return Ok(text::concat2("shell:", command));
    }
    match package {
        None => Err(DeviceError::MissingPackage),
        Some(name) => {
            let argument: String = if is_quoted(command) {
                command.to_owned()
            } else if needs_care(command) {
                proof {
                    reveal_strlit("'");
                }
                text::replace(command, "'", "'\"'\"'")
            } else {
                text::concat3("\"", command, "\"")
            };
            Ok(text::concat4("shell:run-as ", name.as_str(), " ", argument.as_str()))
        },
    }
}

// Laws

/// A command that begins with `su` reaches the shell as it is, whoever runs
/// it, so that `su` is never invoked twice.
pub proof fn law_su_is_not_wrapped(command: Seq<char>, run_as: bool, package: Option<Seq<char>>)
    requires
        "su"@.is_prefix_of(command),
    ensures
        shell_request(command, run_as, package) == Ok::<Seq<char>, ErrorView>(
            "shell:"@ + command,
        ),
{
}

/// A command that is not run as a package reaches the shell as it is.
pub proof fn law_plain_command(command: Seq<char>, package: Option<Seq<char>>)
    ensures
        shell_request(command, false, package) == Ok::<Seq<char>, ErrorView>("shell:"@ + command),
{
}

/// The only command that cannot be prepared is one to run as a package when
/// none is set.
pub proof fn law_missing_package(command: Seq<char>, run_as: bool, package: Option<Seq<char>>)
    ensures
        shell_request(command, run_as, package) is Err <==> run_as && package is None
            && !"su"@.is_prefix_of(command),
{
}

/// Text without single quotes is left unchanged where single quotes would be
/// replaced.
pub proof fn law_no_quotes_unchanged(command: Seq<char>, to: Seq<char>)
    requires
        forall|i: int| 0 <= i < command.len() ==> #[trigger] command[i] != '\'',
    ensures
        text::replace_all(command, "'"@, to) == command,
    decreases command.len(),
{
    reveal_strlit("'");
    if command.len() > 0 {
        assert(command.subrange(0, 1)[0] == command[0]);
        assert(!text::occurs_at(command, 0, "'"@));
        law_no_quotes_unchanged(command.skip(1), to);
        assert(seq![command[0]] + command.skip(1) =~= command);
    }
}

/// The characters that a shell takes as they are: the ASCII letters and digits,
/// and ten others.
pub proof fn law_plain_characters(c: char)
    ensures
        is_plain(c) <==> 0x30 <= c as u32 <= 0x39 || 0x41 <= c as u32 <= 0x5a || 0x61 <= c as u32
            <= 0x7a || "_@%+=:,./-"@.contains(c),
{
    reveal_strlit("_@%+=:,./-");
    let others = "_@%+=:,./-"@;
    assert(others[0] == '_' && others[1] == '@' && others[2] == '%' && others[3] == '+' && others[4]
        == '=' && others[5] == ':' && others[6] == ',' && others[7] == '.' && others[8] == '/'
        && others[9] == '-' && others.len() == 10);
}

/// A text needs care exactly where it is not made of plain characters alone.
pub proof fn law_special_text(a: Seq<char>, c: char, b: Seq<char>)
    ensures
        !is_plain(c) ==> has_special(a.push(c) + b),
        is_plain(c) && !has_special(a) && !has_special(b) ==> !has_special(a.push(c) + b),
        has_special(a) || has_special(b) ==> has_special(a.push(c) + b),
        !has_special(Seq::<char>::empty()),
{
    let whole = a.push(c) + b;
    assert(whole[a.len() as int] == c);
    if has_special(a) {
        let i = choose|i: int| 0 <= i < a.len() && !is_plain(#[trigger] a[i]);
        assert(whole[i] == a[i]);
    }
    if has_special(b) {
        let i = choose|i: int| 0 <= i < b.len() && !is_plain(#[trigger] b[i]);
        assert(whole[a.len() + 1 + i] == b[i]);
    }
    if is_plain(c) && !has_special(a) && !has_special(b) && has_special(whole) {
        let i = choose|i: int| 0 <= i < whole.len() && !is_plain(#[trigger] whole[i]);
        if i < a.len() {
            assert(whole[i] == a[i]);
        } else if i > a.len() {
            assert(whole[i] == b[i - a.len() - 1]);
        }
    }
}

proof fn lemma_su(command: Seq<char>)
    requires
        command.len() < 2 || command[0] != 's' || command[1] != 'u',
    ensures
        !"su"@.is_prefix_of(command),
{
    reveal_strlit("su");
    if "su"@.is_prefix_of(command) {
        assert(command.subrange(0, 2)[0] == command[0]);
        assert(command.subrange(0, 2)[1] == command[1]);
    }
}

/// A command of plain characters is run as the package in double quotes.
pub proof fn law_plain_command_is_quoted(command: Seq<char>, package: Seq<char>)
    requires
        command.len() < 2 || command[0] != 's' || command[1] != 'u',
        forall|i: int| 0 <= i < command.len() ==> is_plain(#[trigger] command[i]),
    ensures
        shell_request(command, true, Some(package)) == Ok::<Seq<char>, ErrorView>(
            "shell:run-as "@ + package + " "@ + ("\""@ + command + "\""@),
        ),
{
    lemma_su(command);
    if command.len() > 0 {
        assert(is_plain(command[0]));
    }
}

/// A command that stands in quotes of one kind already is run as the package
/// unchanged.
pub proof fn law_quoted_command_is_unchanged(inner: Seq<char>, quote: char, package: Seq<char>)
    requires
        quote == '"' || quote == '\'',
    ensures
        ({
            let command = seq![quote] + inner.push(quote);
            shell_request(command, true, Some(package)) == Ok::<Seq<char>, ErrorView>(
                "shell:run-as "@ + package + " "@ + command,
            )
        }),
        shell_request(seq![quote], true, Some(package)) == Ok::<Seq<char>, ErrorView>(
            "shell:run-as "@ + package + " "@ + seq![quote],
        ),
{
    let command = seq![quote] + inner.push(quote);
    assert(command[0] == quote && command.last() == quote);
    lemma_su(command);
    lemma_su(seq![quote]);
}

/// Replacing single quotes in a text is replacing them in front of one of them,
/// replacing that one, and replacing them behind it.
pub proof fn law_quotes_are_replaced_one_by_one(a: Seq<char>, b: Seq<char>, to: Seq<char>)
    ensures
        text::replace_all(a + ("'"@ + b), "'"@, to) == text::replace_all(a, "'"@, to) + (to
            + text::replace_all(b, "'"@, to)),
    decreases a.len(),
{
    reveal_strlit("'");
    let from = "'"@;
    let whole = a + (from + b);
    let rest = to + text::replace_all(b, from, to);
    if a.len() == 0 {
        assert(whole =~= from + b);
        assert(whole.subrange(0, 1) =~= from);
        assert(whole.skip(1) =~= b);
        assert(text::replace_all(a, from, to) + rest =~= rest);
    } else {
        let tail = a.skip(1);
        assert(whole.subrange(0, 1) =~= a.subrange(0, 1));
        assert(whole.skip(1) =~= tail + (from + b));
        law_quotes_are_replaced_one_by_one(tail, b, to);
        assert(to + (text::replace_all(tail, from, to) + rest) =~= (to + text::replace_all(
            tail,
            from,
            to,
        )) + rest);
        assert(seq![a[0]] + (text::replace_all(tail, from, to) + rest) =~= (seq![a[0]]
            + text::replace_all(tail, from, to)) + rest);
    }
}

/// What the shell makes of a command with special characters is what it makes of
/// its parts: each single quote is taken out of its quotation, and the rest is
/// unchanged.
pub proof fn law_special_command_keeps_its_text(
    a: Seq<char>,
    b: Seq<char>,
    package: Seq<char>,
)
    requires
        a.len() > 0,
        a[0] != 's',
        !has_outer_quotes(a + ("'"@ + b)),
        forall|i: int| 0 <= i < a.len() ==> #[trigger] a[i] != '\'',
        forall|i: int| 0 <= i < b.len() ==> #[trigger] b[i] != '\'',
    ensures
        shell_request(a + ("'"@ + b), true, Some(package)) == Ok::<Seq<char>, ErrorView>(
            "shell:run-as "@ + package + " "@ + (a + ("'\"'\"'"@ + b)),
        ),
        has_special(a) && !has_outer_quotes(a) ==> shell_request(a, true, Some(package)) == Ok::<
            Seq<char>,
            ErrorView,
        >("shell:run-as "@ + package + " "@ + a),
{
    reveal_strlit("'");
    let command = a + ("'"@ + b);
    let to = "'\"'\"'"@;
    assert(command[0] == a[0]);
    lemma_su(command);
    lemma_su(a);
    assert(command[a.len() as int] == '\'');
    assert(!is_plain(command[a.len() as int]));
    law_quotes_are_replaced_one_by_one(a, b, to);
    law_no_quotes_unchanged(a, to);
    law_no_quotes_unchanged(b, to);
}

/// A text stands in quotes where its first and its last character are the same
/// kind of quote.
pub proof fn law_outer_quotes(s: Seq<char>)
    ensures
        has_outer_quotes(s) <==> s.len() > 0 && s[0] == s[s.len() - 1] && (s[0] == '"' || s[0]
            == '\''),
{
}

/// What is replaced is each single quote and nothing else.
pub proof fn law_each_quote_is_replaced(s: Seq<char>, to: Seq<char>)
    ensures
        text::replace_all(s, "'"@, to) == s.map_values(
            |c: char|
                if c == '\'' {
                    to
                } else {
                    seq![c]
                },
        ).flatten(),
    decreases s.len(),
{
    reveal_strlit("'");
    let from = "'"@;
    let f = |c: char|
        if c == '\'' {
            to
        } else {
            seq![c]
        };
    if s.len() == 0 {
        assert(s.map_values(f) =~= seq![]);
        assert(s.map_values(f).flatten() =~= seq![]);
        assert(text::replace_all(s, from, to) =~= seq![]);
    } else {
        law_each_quote_is_replaced(s.skip(1), to);
        assert(s.map_values(f).drop_first() =~= s.skip(1).map_values(f));
        assert(s.map_values(f)[0] == f(s[0]));
        assert(s.subrange(0, 1) =~= seq![s[0]]);
        assert(from =~= seq!['\'']);
        if text::occurs_at(s, 0, from) {
            assert(s.subrange(0, 1)[0] == '\'');
        }
    }
}

/// A command with special characters that does not stand in quotes is run by the
/// package as it is, but for its single quotes, each of which is taken out of its
/// quotation.
pub proof fn law_special_command_is_passed_on(command: Seq<char>, package: Seq<char>)
    requires
        command.len() < 2 || command[0] != 's' || command[1] != 'u',
        exists|i: int| 0 <= i < command.len() && !is_plain(#[trigger] command[i]),
        command[0] != command[command.len() - 1] || (command[0] != '"' && command[0] != '\''),
    ensures
        shell_request(command, true, Some(package)) == Ok::<Seq<char>, ErrorView>(
            "shell:run-as "@ + package + " "@ + command.map_values(
                |c: char|
                    if c == '\'' {
                        seq!['\'', '"', '\'', '"', '\'']
                    } else {
                        seq![c]
                    },
            ).flatten(),
        ),
{
    reveal_strlit("'\"'\"'");
    let to = "'\"'\"'"@;
    assert(to =~= seq!['\'', '"', '\'', '"', '\'']);
    lemma_su(command);
    law_each_quote_is_replaced(command, to);
    let named = |c: char|
        if c == '\'' {
            to
        } else {
            seq![c]
        };
    let spelled = |c: char|
        if c == '\'' {
            seq!['\'', '"', '\'', '"', '\'']
        } else {
            seq![c]
        };
    assert(command.map_values(named) =~= command.map_values(spelled));
    assert(has_special(command));
    assert(!has_outer_quotes(command));
}

} // verus!
