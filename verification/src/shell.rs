//! Parsing a shell command into its arguments.
use vstd::prelude::*;
use crate::text::{str_chars, chars_to_string};

verus! {

/// Reads `s` from the left. `words` holds the finished arguments, `word` the argument being
/// read and `quoted` whether a single quote is open. A quote toggles the quoted state and is
/// dropped; inside quotes every character is kept; outside quotes a space ends the current
/// argument (empty arguments are not kept); any other character is kept. At the end, an
/// unfinished non-empty argument is kept.
pub open spec fn shell_scan(words: Seq<Seq<char>>, word: Seq<char>, quoted: bool, s: Seq<char>) -> Seq<
    Seq<char>,
>
    decreases s.len(),
{
    if s.len() == 0 {
        if word.len() > 0 {
            words.push(word)
        } else {
            words
        }
    } else {
        let c = s[0];
        let rest = s.drop_first();
        if c == '\'' {
            shell_scan(words, word, !quoted, rest)
        } else if quoted {
            shell_scan(words, word.push(c), quoted, rest)
        } else if c == ' ' {
            if word.len() > 0 {
                shell_scan(words.push(word), Seq::empty(), quoted, rest)
            } else {
                shell_scan(words, word, quoted, rest)
            }
        } else {
            shell_scan(words, word.push(c), quoted, rest)
        }
    }
}

/// The arguments of a shell command.
pub open spec fn shell_words(s: Seq<char>) -> Seq<Seq<char>> {
    shell_scan(Seq::empty(), Seq::empty(), false, s)
}

/// The views of a vector of strings.
pub open spec fn strings_view(v: Seq<String>) -> Seq<Seq<char>> {
    v.map_values(|s: String| s@)
}

/// Parse the string as a shell command: whitespace-separated arguments, where single quotes
/// group characters (spaces included) into an argument.
///
/// ```text
/// cat file  -->  ["cat", "file"]
/// ls 'VirtualBox VMs'  -->  ["ls", "VirtualBox VMs"]
/// ls VirtualBox' 'VMs  -->  ["ls", "VirtualBox VMs"]
/// ```
pub fn parse_shell_command(command: &str) -> (r: Vec<String>)
    ensures
        strings_view(r@) == shell_words(command@),
{
    let chars = str_chars(command);
    let n = chars.len();
    let mut vec: Vec<String> = Vec::new();
    let mut word: Vec<char> = Vec::new();
    let mut single_quoted = false;
    let mut i: usize = 0;
    assert(chars@.skip(0) == chars@);
    assert(strings_view(vec@) == Seq::<Seq<char>>::empty());
    assert(word@ == Seq::<char>::empty());
    while i < n
        invariant
            n == chars@.len(),
            i <= n,
            chars@ == command@,
            shell_scan(strings_view(vec@), word@, single_quoted, chars@.skip(i as int))
                == shell_words(command@),
        decreases n - i,
    {
        let c = chars[i];
        let ghost rest = chars@.skip(i as int);
        assert(rest[0] == c);
        assert(rest.drop_first() == chars@.skip(i + 1));
        if c == '\'' {
            single_quoted = !single_quoted;
        } else if single_quoted {
            word.push(c);
        } else if c == ' ' {
            if word.len() > 0 {
                let ghost before = strings_view(vec@);
                vec.push(chars_to_string(&word));
                assert(strings_view(vec@) == before.push(word@));
                word = Vec::new();
                assert(word@ == Seq::<char>::empty());
            }
        } else {
            word.push(c);
        }
        i = i + 1;
    }
    assert(chars@.skip(n as int) == Seq::<char>::empty());
    if word.len() > 0 {
        let ghost before = strings_view(vec@);
        vec.push(chars_to_string(&word));
        assert(strings_view(vec@) == before.push(word@));
    }
    vec
}

} // verus!
