//! Pig Latin and a small text editor.
use vstd::prelude::*;
use crate::text::{str_chars, chars_to_string};

verus! {

/// Whether `c` is one of the vowels `a`, `e`, `i`, `o`, `u`.
pub open spec fn is_vowel(c: char) -> bool {
    c == 'a' || c == 'e' || c == 'i' || c == 'o' || c == 'u'
}

/// Index of the first vowel of `s`, if any.
pub open spec fn first_vowel(s: Seq<char>) -> Option<int>
    decreases s.len(),
{
    if s.len() == 0 {
        None
    } else if is_vowel(s[0]) {
        Some(0)
    } else {
        match first_vowel(s.drop_first()) {
            Some(i) => Some(i + 1),
            None => None,
        }
    }
}

/// Pig Latin: a word starting with a vowel gets `hay` appended; otherwise the consonants before
/// the first vowel move to the end followed by `ay`. A word without vowels, and the empty word,
/// stay as they are.
pub open spec fn piglatin_spec(s: Seq<char>) -> Seq<char> {
    if s.len() == 0 {
        s
    } else if is_vowel(s[0]) {
        s + seq!['h', 'a', 'y']
    } else {
        match first_vowel(s) {
            Some(i) => s.skip(i) + s.take(i) + seq!['a', 'y'],
            None => s,
        }
    }
}

/// Converts the given string to Pig Latin.
///
/// 1. A word starting with a consonant and a vowel moves its first letter to the end and adds
///    "ay": "happy" -> "appyhay".
/// 2. A word starting with several consonants moves them to the end and adds "ay":
///    "string" -> "ingstray".
/// 3. A word starting with a vowel gets "hay" added: "explain" -> "explainhay".
pub fn piglatin(input: String) -> (r: String)
    ensures
        r@ == piglatin_spec(input@),
{
    let s = str_chars(input.as_str());
    let n = s.len();
    if n == 0 {
        return input;
    }
    let first = s[0];
    if first == 'a' || first == 'e' || first == 'i' || first == 'o' || first == 'u' {
        let mut out = s.clone();
        out.push('h');
        out.push('a');
        out.push('y');
        assert(out@ == s@ + seq!['h', 'a', 'y']);
        return chars_to_string(&out);
    }
    let mut k: usize = 0;
    while k < n && !(s[k] == 'a' || s[k] == 'e' || s[k] == 'i' || s[k] == 'o' || s[k] == 'u')
        invariant
            n == s@.len(),
            k <= n,
            forall|j: int| 0 <= j < k ==> !is_vowel(#[trigger] s@[j]),
        decreases n - k,
    {
        k = k + 1;
    }
    proof {
        lemma_first_vowel(s@, k as int);
    }
    if k == n {
        return input;
    }
    let mut out: Vec<char> = Vec::new();
    let mut j: usize = k;
    while j < n
        invariant
            n == s@.len(),
            k <= j <= n,
            out@ == s@.subrange(k as int, j as int),
        decreases n - j,
    {
        out.push(s[j]);
        j = j + 1;
        assert(out@ == s@.subrange(k as int, j as int));
    }
    let mut j: usize = 0;
    while j < k
        invariant
            n == s@.len(),
            k < n,
            j <= k,
            out@ == s@.skip(k as int) + s@.take(j as int),
        decreases k - j,
    {
        out.push(s[j]);
        j = j + 1;
        assert(out@ == s@.skip(k as int) + s@.take(j as int));
    }
    out.push('a');
    out.push('y');
    assert(out@ == s@.skip(k as int) + s@.take(k as int) + seq!['a', 'y']);
    chars_to_string(&out)
}

/// `first_vowel` finds the first vowel.
pub proof fn lemma_first_vowel(s: Seq<char>, k: int)
    requires
        0 <= k <= s.len(),
        forall|j: int| 0 <= j < k ==> !is_vowel(#[trigger] s[j]),
        k < s.len() ==> is_vowel(s[k]),
    ensures
        k < s.len() ==> first_vowel(s) == Some(k),
        k == s.len() ==> first_vowel(s) is None,
    decreases k,
{
    if k > 0 {
        let t = s.drop_first();
        assert forall|j: int| 0 <= j < k - 1 implies !is_vowel(#[trigger] t[j]) by {
            assert(t[j] == s[j + 1]);
        }
        assert(!is_vowel(s[0]));
        lemma_first_vowel(t, k - 1);
    }
}

/// Events in a text editor.
#[derive(Debug)]
pub enum TypeEvent {
    /// A character is typed.
    Type(char),
    /// The last character is removed.
    Backspace,
    /// The whole string is copied to the clipboard.
    Copy,
    /// The string in the clipboard is appended.
    Paste,
}

/// The buffer and clipboard after processing `events`, in order, from `buf` and `cb`.
pub open spec fn editor_run(buf: Seq<char>, cb: Seq<char>, events: Seq<TypeEvent>) -> (
    Seq<char>,
    Seq<char>,
)
    decreases events.len(),
{
    if events.len() == 0 {
        (buf, cb)
    } else {
        let (b, c) = match events[0] {
            TypeEvent::Type(ch) => (buf.push(ch), cb),
            TypeEvent::Backspace => (if buf.len() > 0 {
                buf.drop_last()
            } else {
                buf
            }, cb),
            TypeEvent::Copy => (buf, buf),
            TypeEvent::Paste => (buf + cb, cb),
        };
        editor_run(b, c, events.drop_first())
    }
}

/// Starting from an empty string and an empty clipboard, processes the given `events` in order
/// and returns the resulting string.
pub fn use_editor(events: Vec<TypeEvent>) -> (r: String)
    ensures
        r@ == editor_run(Seq::empty(), Seq::empty(), events@).0,
{
    let mut buf: Vec<char> = Vec::new();
    let mut cb: Vec<char> = Vec::new();
    let n = events.len();
    let mut i: usize = 0;
    assert(events@.skip(0) == events@);
    while i < n
        invariant
            n == events@.len(),
            i <= n,
            editor_run(buf@, cb@, events@.skip(i as int)) == editor_run(
                Seq::empty(),
                Seq::empty(),
                events@,
            ),
        decreases n - i,
    {
        let ghost rest = events@.skip(i as int);
        assert(rest[0] == events@[i as int]);
        assert(rest.drop_first() == events@.skip(i + 1));
        match &events[i] {
            TypeEvent::Type(c) => {
                buf.push(*c);
            },
            TypeEvent::Backspace => {
                let _ = buf.pop();
            },
            TypeEvent::Copy => {
                cb = buf.clone();
            },
            TypeEvent::Paste => {
                let mut j: usize = 0;
                let ghost b0 = buf@;
                while j < cb.len()
                    invariant
                        j <= cb@.len(),
                        buf@ == b0 + cb@.take(j as int),
                    decreases cb@.len() - j,
                {
                    buf.push(cb[j]);
                    j = j + 1;
                    assert(buf@ == b0 + cb@.take(j as int));
                }
                assert(cb@.take(cb@.len() as int) == cb@);
            },
        }
        i = i + 1;
    }
    assert(events@.skip(n as int) == Seq::<TypeEvent>::empty());
    chars_to_string(&buf)
}

/// Pig Latin, letter by letter: a word whose first letter is `a`, `e`, `i`, `o` or `u` gets
/// `hay` appended. Otherwise, when its first such letter is at `k`, the `k` letters before it
/// move to the end, followed by `ay`; a word with none of these letters is left as it is.
pub proof fn lemma_piglatin_rules(s: Seq<char>, k: int)
    requires
        0 <= k <= s.len(),
        forall|j: int|
            0 <= j < k ==> !(#[trigger] s[j] == 'a' || s[j] == 'e' || s[j] == 'i' || s[j] == 'o'
                || s[j] == 'u'),
        k < s.len() ==> (s[k] == 'a' || s[k] == 'e' || s[k] == 'i' || s[k] == 'o' || s[k] == 'u'),
    ensures
        s.len() > 0 && k == 0 ==> piglatin_spec(s) == s + seq!['h', 'a', 'y'],
        0 < k < s.len() ==> piglatin_spec(s) == s.skip(k) + s.take(k) + seq!['a', 'y'],
        k == s.len() ==> piglatin_spec(s) == s,
{
    assert forall|j: int| 0 <= j < k implies !is_vowel(#[trigger] s[j]) by {
        assert(!(s[j] == 'a' || s[j] == 'e' || s[j] == 'i' || s[j] == 'o' || s[j] == 'u'));
    }
    lemma_first_vowel(s, k);
    if s.len() > 0 && k > 0 {
        assert(!is_vowel(s[0]));
    }
}

/// Running events and then more is running the later events from where the first left off.
pub proof fn lemma_editor_concat(
    buf: Seq<char>,
    cb: Seq<char>,
    e1: Seq<TypeEvent>,
    e2: Seq<TypeEvent>,
)
    ensures
        editor_run(buf, cb, e1 + e2) == editor_run(
            editor_run(buf, cb, e1).0,
            editor_run(buf, cb, e1).1,
            e2,
        ),
    decreases e1.len(),
{
    if e1.len() == 0 {
        assert(e1 + e2 =~= e2);
    } else {
        let (b, c) = match e1[0] {
            TypeEvent::Type(ch) => (buf.push(ch), cb),
            TypeEvent::Backspace => (if buf.len() > 0 {
                buf.drop_last()
            } else {
                buf
            }, cb),
            TypeEvent::Copy => (buf, buf),
            TypeEvent::Paste => (buf + cb, cb),
        };
        lemma_editor_concat(b, c, e1.drop_first(), e2);
        assert((e1 + e2)[0] == e1[0]);
        assert((e1 + e2).drop_first() =~= e1.drop_first() + e2);
    }
}

/// What each event does after any earlier events, with `(b, c)` the buffer and clipboard they
/// left: typing appends the character; backspace drops the last character (if any); copy puts
/// the whole buffer in the clipboard, whatever it held, and keeps the buffer; paste appends the
/// clipboard. So a copy followed by a paste doubles the buffer.
pub proof fn lemma_editor_events(events: Seq<TypeEvent>, ch: char)
    ensures
        ({
            let (b, c) = editor_run(Seq::empty(), Seq::empty(), events);
            &&& editor_run(Seq::empty(), Seq::empty(), events.push(TypeEvent::Type(ch))) == (
                b.push(ch),
                c,
            )
            &&& editor_run(Seq::empty(), Seq::empty(), events.push(TypeEvent::Backspace)) == (
                if b.len() > 0 {
                    b.subrange(0, b.len() - 1)
                } else {
                    b
                },
                c,
            )
            &&& editor_run(Seq::empty(), Seq::empty(), events.push(TypeEvent::Copy)) == (b, b)
            &&& editor_run(Seq::empty(), Seq::empty(), events.push(TypeEvent::Paste)) == (b + c, c)
            &&& editor_run(
                Seq::empty(),
                Seq::empty(),
                events.push(TypeEvent::Copy).push(TypeEvent::Paste),
            ).0 == b + b
        }),
{
    let e = Seq::<char>::empty();
    let (b, c) = editor_run(e, e, events);
    lemma_editor_step(events, TypeEvent::Type(ch));
    lemma_editor_step(events, TypeEvent::Backspace);
    lemma_editor_step(events, TypeEvent::Copy);
    lemma_editor_step(events, TypeEvent::Paste);
    assert(editor_run(e, e, events.push(TypeEvent::Type(ch))) == (b.push(ch), c));
    if b.len() > 0 {
        assert(b.drop_last() =~= b.subrange(0, b.len() - 1));
    }
    assert(editor_run(e, e, events.push(TypeEvent::Copy)) == (b, b));
    assert(editor_run(e, e, events.push(TypeEvent::Paste)) == (b + c, c));
    lemma_editor_step(events.push(TypeEvent::Copy), TypeEvent::Paste);
}

/// One more event after `events`, from the buffer and clipboard they left.
proof fn lemma_editor_step(events: Seq<TypeEvent>, ev: TypeEvent)
    ensures
        ({
            let (b, c) = editor_run(Seq::empty(), Seq::empty(), events);
            editor_run(Seq::empty(), Seq::empty(), events.push(ev)) == editor_run(b, c, seq![ev])
        }),
        ({
            let (b, c) = editor_run(Seq::empty(), Seq::empty(), events);
            editor_run(b, c, seq![ev]) == match ev {
                TypeEvent::Type(ch) => (b.push(ch), c),
                TypeEvent::Backspace => (if b.len() > 0 {
                    b.drop_last()
                } else {
                    b
                }, c),
                TypeEvent::Copy => (b, b),
                TypeEvent::Paste => (b + c, c),
            }
        }),
{
    let e = Seq::<char>::empty();
    assert(events.push(ev) =~= events + seq![ev]);
    lemma_editor_concat(e, e, events, seq![ev]);
    let (b, c) = editor_run(e, e, events);
    let s1 = seq![ev];
    assert(s1[0] == ev);
    assert(s1.drop_first() =~= Seq::<TypeEvent>::empty());
    let (b2, c2) = match ev {
        TypeEvent::Type(ch) => (b.push(ch), c),
        TypeEvent::Backspace => (if b.len() > 0 {
            b.drop_last()
        } else {
            b
        }, c),
        TypeEvent::Copy => (b, b),
        TypeEvent::Paste => (b + c, c),
    };
    assert(editor_run(b2, c2, Seq::<TypeEvent>::empty()) == (b2, c2));
    assert(editor_run(b, c, s1) == editor_run(b2, c2, s1.drop_first()));
}

} // verus!
