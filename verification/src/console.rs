//! The in-game console: reading a command line, its log and history, and
//! the listings and choices its commands make. Commands that move things in
//! space or touch the physics, audio or scripting back ends are carried out
//! by the engine with what this module decides.

use vstd::prelude::*;

use crate::ecs::Entity;
use crate::engine_state::ConsoleState;
use crate::entity_types::{category_set, default_registry, default_templates, in_category, EntityTemplate};
use crate::config::{parse_u32, parse_u32_spec};
use crate::text::{same_str, str_lt};
use crate::wpak::{chars_of, string_from_chars};

verus! {

// --- Whitespace and words -------------------------------------------------------------

/// Whether a character has the Unicode `White_Space` property.
pub uninterp spec fn unicode_whitespace(c: char) -> bool;

/// `char::is_whitespace`. The contract names the result and states it on
/// ASCII: space and the controls tab through carriage return.
#[verifier::external_body]
fn is_whitespace(c: char) -> (r: bool)
    ensures
        r == unicode_whitespace(c),
        (c as u32) < 128 ==> (r <==> (c == ' ' || ('\t' <= c && c <= '\r'))),
{
    c.is_whitespace()
}

/// The words found in the first `k` characters, and the word being read.
pub open spec fn split_upto(s: Seq<char>, k: int) -> (Seq<Seq<char>>, Seq<char>)
    decreases k,
{
    if k <= 0 {
        (Seq::empty(), Seq::empty())
    } else {
        let (ws, cur) = split_upto(s, k - 1);
        if unicode_whitespace(s[k - 1]) {
            if cur.len() > 0 {
                (ws.push(cur), Seq::empty())
            } else {
                (ws, Seq::empty())
            }
        } else {
            (ws, cur.push(s[k - 1]))
        }
    }
}

/// The words of a text: its maximal runs of non-whitespace characters
/// (`str::split_whitespace`).
pub open spec fn words(s: Seq<char>) -> Seq<Seq<char>> {
    let (ws, cur) = split_upto(s, s.len() as int);
    if cur.len() > 0 {
        ws.push(cur)
    } else {
        ws
    }
}

/// The text with its whitespace characters taken out.
pub open spec fn without_spaces(s: Seq<char>) -> Seq<char>
    decreases s.len(),
{
    if s.len() == 0 {
        s
    } else if unicode_whitespace(s.last()) {
        without_spaces(s.drop_last())
    } else {
        without_spaces(s.drop_last()).push(s.last())
    }
}

/// The words one after another.
pub open spec fn joined(ws: Seq<Seq<char>>) -> Seq<char>
    decreases ws.len(),
{
    if ws.len() == 0 {
        Seq::empty()
    } else {
        joined(ws.drop_last()) + ws.last()
    }
}

/// No character of `w` is whitespace.
pub open spec fn spaceless(w: Seq<char>) -> bool {
    forall|i: int| 0 <= i < w.len() ==> !unicode_whitespace(#[trigger] w[i])
}

proof fn lemma_split_shape(s: Seq<char>, k: int)
    requires
        0 <= k <= s.len(),
    ensures
        forall|i: int| 0 <= i < split_upto(s, k).0.len() ==> (#[trigger] split_upto(s, k).0[i]).len() > 0
            && spaceless(split_upto(s, k).0[i]),
        spaceless(split_upto(s, k).1),
        joined(split_upto(s, k).0) + split_upto(s, k).1 == without_spaces(s.take(k)),
    decreases k,
{
    if k > 0 {
        lemma_split_shape(s, k - 1);
        let (ws, cur) = split_upto(s, k - 1);
        let c = s[k - 1];
        assert(s.take(k).drop_last() =~= s.take(k - 1));
        assert(s.take(k).last() == c);
        if unicode_whitespace(c) {
            if cur.len() > 0 {
                assert(ws.push(cur).drop_last() =~= ws);
                assert(joined(ws.push(cur)) == joined(ws) + cur);
                assert(joined(ws.push(cur)) + Seq::<char>::empty() =~= joined(ws.push(cur)));
            } else {
                assert(joined(ws) + Seq::<char>::empty() =~= joined(ws));
                assert(joined(ws) + cur =~= joined(ws));
            }
        } else {
            assert(joined(ws) + cur.push(c) =~= (joined(ws) + cur).push(c));
            assert forall|i: int| 0 <= i < cur.push(c).len() implies !unicode_whitespace(#[trigger] cur.push(c)[i]) by {
                if i < cur.len() {
                    assert(cur.push(c)[i] == cur[i]);
                }
            }
        }
    }
}

proof fn lemma_split_prefix(s: Seq<char>, t: Seq<char>, k: int)
    requires
        0 <= k <= s.len(),
        k <= t.len(),
        forall|i: int| 0 <= i < k ==> s[i] == t[i],
    ensures
        split_upto(s, k) == split_upto(t, k),
    decreases k,
{
    if k > 0 {
        lemma_split_prefix(s, t, k - 1);
    }
}

proof fn lemma_split_from(s: Seq<char>, m: int, j: int)
    requires
        0 <= m,
        0 <= j,
        m + j <= s.len(),
        split_upto(s, m).1 == Seq::<char>::empty(),
    ensures
        split_upto(s, m + j) == (split_upto(s, m).0 + split_upto(s.skip(m), j).0, split_upto(s.skip(m), j).1),
    decreases j,
{
    if j > 0 {
        lemma_split_from(s, m, j - 1);
        let w = split_upto(s, m).0;
        let (ws, cur) = split_upto(s.skip(m), j - 1);
        assert(s.skip(m)[j - 1] == s[m + j - 1]);
        if unicode_whitespace(s[m + j - 1]) && cur.len() > 0 {
            assert(w + ws.push(cur) =~= (w + ws).push(cur));
        }
    }
}

proof fn lemma_split_spaceless(s: Seq<char>, k: int)
    requires
        0 <= k <= s.len(),
        spaceless(s),
    ensures
        split_upto(s, k) == (Seq::<Seq<char>>::empty(), s.take(k)),
    decreases k,
{
    if k > 0 {
        lemma_split_spaceless(s, k - 1);
        assert(!unicode_whitespace(s[k - 1]));
        assert(s.take(k - 1).push(s[k - 1]) =~= s.take(k));
    }
}

/// The words of a text are non-empty and hold no whitespace, and one after
/// another they give the text with its whitespace taken out.
pub proof fn lemma_words_cover(s: Seq<char>)
    ensures
        forall|i: int| 0 <= i < words(s).len() ==> (#[trigger] words(s)[i]).len() > 0 && spaceless(words(s)[i]),
        joined(words(s)) == without_spaces(s),
{
    lemma_split_shape(s, s.len() as int);
    assert(s.take(s.len() as int) =~= s);
    let (ws, cur) = split_upto(s, s.len() as int);
    if cur.len() > 0 {
        assert(ws.push(cur).drop_last() =~= ws);
        assert forall|i: int| 0 <= i < ws.push(cur).len() implies (#[trigger] ws.push(cur)[i]).len() > 0
            && spaceless(ws.push(cur)[i]) by {
            if i < ws.len() {
                assert(ws.push(cur)[i] == ws[i]);
            }
        }
    } else {
        assert(joined(ws) + cur =~= joined(ws));
    }
}

/// Text without whitespace is a single word (or none, when empty), and a
/// whitespace character splits the words: the words of `a`, a whitespace
/// character, then `b` are the words of `a` followed by those of `b`.
pub proof fn lemma_words_split(a: Seq<char>, c: char, b: Seq<char>)
    ensures
        spaceless(a) && a.len() > 0 ==> words(a) == seq![a],
        spaceless(a) && a.len() == 0 ==> words(a) == Seq::<Seq<char>>::empty(),
        unicode_whitespace(c) ==> words(a + seq![c] + b) == words(a) + words(b),
{
    if spaceless(a) {
        lemma_split_spaceless(a, a.len() as int);
        assert(a.take(a.len() as int) =~= a);
    }
    if unicode_whitespace(c) {
        let x = a + seq![c] + b;
        let m = a.len() as int;
        lemma_split_prefix(x, a, m);
        let (wa, ca) = split_upto(a, m);
        assert(x[m] == c);
        let wsa = words(a);
        assert(split_upto(x, m + 1) == (wsa, Seq::<char>::empty()));
        assert(x.skip(m + 1) =~= b);
        lemma_split_from(x, m + 1, b.len() as int);
        let (wb, cb) = split_upto(b, b.len() as int);
        assert(x.len() == m + 1 + b.len());
        if cb.len() > 0 {
            assert(wsa + wb.push(cb) =~= (wsa + wb).push(cb));
        }
    }
}

pub open spec fn strings_view(v: Seq<String>) -> Seq<Seq<char>> {
    v.map_values(|s: String| s@)
}

/// The words of a text.
pub fn split_words(s: &str) -> (r: Vec<String>)
    ensures
        strings_view(r@) == words(s@),
{
    let cs = chars_of(s);
    let n = cs.len();
    let mut out: Vec<String> = Vec::new();
    let mut cur: Vec<char> = Vec::new();
    let mut k: usize = 0;
    while k < n
        invariant
            n == cs@.len(),
            cs@ == s@,
            k <= n,
            (strings_view(out@), cur@) == split_upto(s@, k as int),
        decreases n - k,
    {
        let c = cs[k];
        let ghost before = strings_view(out@);
        if is_whitespace(c) {
            if cur.len() > 0 {
                let w = string_from_chars(&cur);
                out.push(w);
                proof {
                    assert(strings_view(out@) =~= before.push(cur@));
                }
                cur = Vec::new();
            }
        } else {
            cur.push(c);
        }
        proof {
            assert(cur@ == split_upto(s@, k + 1).1);
            assert(strings_view(out@) == split_upto(s@, k + 1).0);
        }
        k = k + 1;
    }
    if cur.len() > 0 {
        let ghost before = strings_view(out@);
        let w = string_from_chars(&cur);
        out.push(w);
        proof {
            assert(strings_view(out@) =~= before.push(cur@));
        }
    }
    out
}

// --- Commands --------------------------------------------------------------------------

/// A console command, by its first word (with or without a leading `/`).
#[derive(Clone, Copy, Debug, PartialEq, Eq, Structural)]
pub enum ConsoleCommand {
    Help,
    Clear,
    Spawn,
    Types,
    Despawn,
    List,
    Teleport,
    Jump,
    Save,
    Load,
    Unknown,
}

pub open spec fn named_command(w: Seq<char>, name: Seq<char>) -> bool {
    w == name || w == seq!['/'] + name
}

/// The command a word names.
pub open spec fn command_of(w: Seq<char>) -> ConsoleCommand {
    if named_command(w, "help"@) {
        ConsoleCommand::Help
    } else if named_command(w, "clear"@) {
        ConsoleCommand::Clear
    } else if named_command(w, "spawn"@) {
        ConsoleCommand::Spawn
    } else if named_command(w, "types"@) {
        ConsoleCommand::Types
    } else if named_command(w, "despawn"@) {
        ConsoleCommand::Despawn
    } else if named_command(w, "list"@) {
        ConsoleCommand::List
    } else if named_command(w, "teleport"@) {
        ConsoleCommand::Teleport
    } else if named_command(w, "jump"@) {
        ConsoleCommand::Jump
    } else if named_command(w, "save"@) {
        ConsoleCommand::Save
    } else if named_command(w, "load"@) {
        ConsoleCommand::Load
    } else {
        ConsoleCommand::Unknown
    }
}

proof fn lemma_not_slashed(w: Seq<char>)
    requires
        w.len() > 0,
        w[0] != '/',
    ensures
        forall|n: Seq<char>| w != #[trigger] (seq!['/'] + n),
{
    assert forall|n: Seq<char>| w != #[trigger] (seq!['/'] + n) by {
        if w == seq!['/'] + n {
            assert(w[0] == (seq!['/'] + n)[0]);
        }
    }
}

/// Each command word names its own command, written bare or after a `/`:
/// `help`, `clear`, `spawn`, `types`, `despawn`, `list`, `teleport`, `jump`,
/// `save` and `load`.
pub proof fn lemma_command_words()
    ensures
        command_of("help"@) == ConsoleCommand::Help,
        command_of(seq!['/'] + "help"@) == ConsoleCommand::Help,
        command_of("clear"@) == ConsoleCommand::Clear,
        command_of(seq!['/'] + "clear"@) == ConsoleCommand::Clear,
        command_of("spawn"@) == ConsoleCommand::Spawn,
        command_of(seq!['/'] + "spawn"@) == ConsoleCommand::Spawn,
        command_of("types"@) == ConsoleCommand::Types,
        command_of(seq!['/'] + "types"@) == ConsoleCommand::Types,
        command_of("despawn"@) == ConsoleCommand::Despawn,
        command_of(seq!['/'] + "despawn"@) == ConsoleCommand::Despawn,
        command_of("list"@) == ConsoleCommand::List,
        command_of(seq!['/'] + "list"@) == ConsoleCommand::List,
        command_of("teleport"@) == ConsoleCommand::Teleport,
        command_of(seq!['/'] + "teleport"@) == ConsoleCommand::Teleport,
        command_of("jump"@) == ConsoleCommand::Jump,
        command_of(seq!['/'] + "jump"@) == ConsoleCommand::Jump,
        command_of("save"@) == ConsoleCommand::Save,
        command_of(seq!['/'] + "save"@) == ConsoleCommand::Save,
        command_of("load"@) == ConsoleCommand::Load,
        command_of(seq!['/'] + "load"@) == ConsoleCommand::Load,
{
    reveal_strlit("help");
    reveal_strlit("clear");
    reveal_strlit("spawn");
    reveal_strlit("types");
    reveal_strlit("despawn");
    reveal_strlit("list");
    reveal_strlit("teleport");
    reveal_strlit("jump");
    reveal_strlit("save");
    reveal_strlit("load");
    lemma_not_slashed("help"@);
    lemma_not_slashed("clear"@);
    lemma_not_slashed("spawn"@);
    lemma_not_slashed("types"@);
    lemma_not_slashed("despawn"@);
    lemma_not_slashed("list"@);
    lemma_not_slashed("teleport"@);
    lemma_not_slashed("jump"@);
    lemma_not_slashed("save"@);
    lemma_not_slashed("load"@);
    assert(named_command("help"@, "help"@));
    lemma_slash_is_optional("help"@);
    assert("clear"@.len() != "help"@.len());
    assert(!named_command("clear"@, "help"@));
    assert(named_command("clear"@, "clear"@));
    lemma_slash_is_optional("clear"@);
    assert("spawn"@.len() != "help"@.len());
    assert(!named_command("spawn"@, "help"@));
    assert("spawn"@[0] != "clear"@[0]);
    assert(!named_command("spawn"@, "clear"@));
    assert(named_command("spawn"@, "spawn"@));
    lemma_slash_is_optional("spawn"@);
    assert("types"@.len() != "help"@.len());
    assert(!named_command("types"@, "help"@));
    assert("types"@[0] != "clear"@[0]);
    assert(!named_command("types"@, "clear"@));
    assert("types"@[0] != "spawn"@[0]);
    assert(!named_command("types"@, "spawn"@));
    assert(named_command("types"@, "types"@));
    lemma_slash_is_optional("types"@);
    assert("despawn"@.len() != "help"@.len());
    assert(!named_command("despawn"@, "help"@));
    assert("despawn"@.len() != "clear"@.len());
    assert(!named_command("despawn"@, "clear"@));
    assert("despawn"@.len() != "spawn"@.len());
    assert(!named_command("despawn"@, "spawn"@));
    assert("despawn"@.len() != "types"@.len());
    assert(!named_command("despawn"@, "types"@));
    assert(named_command("despawn"@, "despawn"@));
    lemma_slash_is_optional("despawn"@);
    assert("list"@[0] != "help"@[0]);
    assert(!named_command("list"@, "help"@));
    assert("list"@.len() != "clear"@.len());
    assert(!named_command("list"@, "clear"@));
    assert("list"@.len() != "spawn"@.len());
    assert(!named_command("list"@, "spawn"@));
    assert("list"@.len() != "types"@.len());
    assert(!named_command("list"@, "types"@));
    assert("list"@.len() != "despawn"@.len());
    assert(!named_command("list"@, "despawn"@));
    assert(named_command("list"@, "list"@));
    lemma_slash_is_optional("list"@);
    assert("teleport"@.len() != "help"@.len());
    assert(!named_command("teleport"@, "help"@));
    assert("teleport"@.len() != "clear"@.len());
    assert(!named_command("teleport"@, "clear"@));
    assert("teleport"@.len() != "spawn"@.len());
    assert(!named_command("teleport"@, "spawn"@));
    assert("teleport"@.len() != "types"@.len());
    assert(!named_command("teleport"@, "types"@));
    assert("teleport"@.len() != "despawn"@.len());
    assert(!named_command("teleport"@, "despawn"@));
    assert("teleport"@.len() != "list"@.len());
    assert(!named_command("teleport"@, "list"@));
    assert(named_command("teleport"@, "teleport"@));
    lemma_slash_is_optional("teleport"@);
    assert("jump"@[0] != "help"@[0]);
    assert(!named_command("jump"@, "help"@));
    assert("jump"@.len() != "clear"@.len());
    assert(!named_command("jump"@, "clear"@));
    assert("jump"@.len() != "spawn"@.len());
    assert(!named_command("jump"@, "spawn"@));
    assert("jump"@.len() != "types"@.len());
    assert(!named_command("jump"@, "types"@));
    assert("jump"@.len() != "despawn"@.len());
    assert(!named_command("jump"@, "despawn"@));
    assert("jump"@[0] != "list"@[0]);
    assert(!named_command("jump"@, "list"@));
    assert("jump"@.len() != "teleport"@.len());
    assert(!named_command("jump"@, "teleport"@));
    assert(named_command("jump"@, "jump"@));
    lemma_slash_is_optional("jump"@);
    assert("save"@[0] != "help"@[0]);
    assert(!named_command("save"@, "help"@));
    assert("save"@.len() != "clear"@.len());
    assert(!named_command("save"@, "clear"@));
    assert("save"@.len() != "spawn"@.len());
    assert(!named_command("save"@, "spawn"@));
    assert("save"@.len() != "types"@.len());
    assert(!named_command("save"@, "types"@));
    assert("save"@.len() != "despawn"@.len());
    assert(!named_command("save"@, "despawn"@));
    assert("save"@[0] != "list"@[0]);
    assert(!named_command("save"@, "list"@));
    assert("save"@.len() != "teleport"@.len());
    assert(!named_command("save"@, "teleport"@));
    assert("save"@[0] != "jump"@[0]);
    assert(!named_command("save"@, "jump"@));
    assert(named_command("save"@, "save"@));
    lemma_slash_is_optional("save"@);
    assert("load"@[0] != "help"@[0]);
    assert(!named_command("load"@, "help"@));
    assert("load"@.len() != "clear"@.len());
    assert(!named_command("load"@, "clear"@));
    assert("load"@.len() != "spawn"@.len());
    assert(!named_command("load"@, "spawn"@));
    assert("load"@.len() != "types"@.len());
    assert(!named_command("load"@, "types"@));
    assert("load"@.len() != "despawn"@.len());
    assert(!named_command("load"@, "despawn"@));
    assert("load"@[1] != "list"@[1]);
    assert(!named_command("load"@, "list"@));
    assert("load"@.len() != "teleport"@.len());
    assert(!named_command("load"@, "teleport"@));
    assert("load"@[0] != "jump"@[0]);
    assert(!named_command("load"@, "jump"@));
    assert("load"@[0] != "save"@[0]);
    assert(!named_command("load"@, "save"@));
    assert(named_command("load"@, "load"@));
    lemma_slash_is_optional("load"@);
}

/// A leading `/` does not change what a word names, and a word that is no
/// command word names no command.
pub proof fn lemma_slash_is_optional(w: Seq<char>)
    requires
        w.len() == 0 || w[0] != '/',
    ensures
        command_of(seq!['/'] + w) == command_of(w),
        command_of(w) == ConsoleCommand::Unknown <==> (w != "help"@ && w != "clear"@ && w != "spawn"@
            && w != "types"@ && w != "despawn"@ && w != "list"@ && w != "teleport"@ && w != "jump"@
            && w != "save"@ && w != "load"@),
{
    reveal_strlit("help");
    reveal_strlit("clear");
    reveal_strlit("spawn");
    reveal_strlit("types");
    reveal_strlit("despawn");
    reveal_strlit("list");
    reveal_strlit("teleport");
    reveal_strlit("jump");
    reveal_strlit("save");
    reveal_strlit("load");
    let sw = seq!['/'] + w;
    assert forall|n: Seq<char>| n.len() > 0 && n[0] != '/' implies (#[trigger] named_command(sw, n)
        == named_command(w, n)) by {
        if sw == n {
            assert(n[0] == sw[0]);
        }
        if sw == seq!['/'] + n {
            assert(w =~= sw.drop_first());
            assert(n =~= (seq!['/'] + n).drop_first());
        }
        if w == seq!['/'] + n {
            assert(w[0] == '/');
        }
        if w == n {
            assert(sw == seq!['/'] + n);
        }
    }
    assert(named_command(sw, "help"@) == named_command(w, "help"@));
    assert(named_command(sw, "clear"@) == named_command(w, "clear"@));
    assert(named_command(sw, "spawn"@) == named_command(w, "spawn"@));
    assert(named_command(sw, "types"@) == named_command(w, "types"@));
    assert(named_command(sw, "despawn"@) == named_command(w, "despawn"@));
    assert(named_command(sw, "list"@) == named_command(w, "list"@));
    assert(named_command(sw, "teleport"@) == named_command(w, "teleport"@));
    assert(named_command(sw, "jump"@) == named_command(w, "jump"@));
    assert(named_command(sw, "save"@) == named_command(w, "save"@));
    assert(named_command(sw, "load"@) == named_command(w, "load"@));
    if w.len() > 0 {
        assert(w != seq!['/'] + "help"@ ==> true);
    }
    assert forall|n: Seq<char>| n.len() > 0 implies !(w == #[trigger] (seq!['/'] + n)) by {
        if w == seq!['/'] + n {
            assert(w[0] == '/');
        }
    }
}

fn names(w: &str, name: &str) -> (b: bool)
    ensures
        b == named_command(w@, name@),
{
    if same_str(w, name) {
        return true;
    }
    let cs = chars_of(w);
    if cs.len() == 0 || cs[0] != '/' {
        proof {
            if w@ == seq!['/'] + name@ {
                assert(w@[0] == '/');
            }
        }
        return false;
    }
    let mut rest: Vec<char> = Vec::new();
    let mut i: usize = 1;
    while i < cs.len()
        invariant
            cs@ == w@,
            1 <= i <= cs@.len(),
            rest@ == cs@.subrange(1, i as int),
        decreases cs@.len() - i,
    {
        rest.push(cs[i]);
        proof {
            assert(rest@ =~= cs@.subrange(1, i + 1));
        }
        i = i + 1;
    }
    let r = string_from_chars(&rest);
    let b = same_str(r.as_str(), name);
    proof {
        assert(w@ =~= seq!['/'] + rest@) by {
            assert(w@[0] == '/');
        }
        if w@ == seq!['/'] + name@ {
            assert(rest@ =~= name@) by {
                assert forall|j: int| 0 <= j < rest@.len() implies rest@[j] == name@[j] by {
                    assert(w@[j + 1] == rest@[j]);
                    assert(w@[j + 1] == name@[j]);
                }
            }
        }
    }
    b
}

/// The command a word names.
pub fn command_of_word(w: &str) -> (c: ConsoleCommand)
    ensures
        c == command_of(w@),
{
    if names(w, "help") {
        ConsoleCommand::Help
    } else if names(w, "clear") {
        ConsoleCommand::Clear
    } else if names(w, "spawn") {
        ConsoleCommand::Spawn
    } else if names(w, "types") {
        ConsoleCommand::Types
    } else if names(w, "despawn") {
        ConsoleCommand::Despawn
    } else if names(w, "list") {
        ConsoleCommand::List
    } else if names(w, "teleport") {
        ConsoleCommand::Teleport
    } else if names(w, "jump") {
        ConsoleCommand::Jump
    } else if names(w, "save") {
        ConsoleCommand::Save
    } else if names(w, "load") {
        ConsoleCommand::Load
    } else {
        ConsoleCommand::Unknown
    }
}

// --- The console --------------------------------------------------------------------------

/// The console's log, its command history, and the history position.
pub struct Console {
    pub log: Vec<String>,
    pub history: Vec<String>,
    pub history_index: usize,
}

/// The line the console starts with.
pub open spec fn ready_line() -> Seq<char> {
    "Console ready. Type /help for commands."@
}

/// What the log gains for a command line: the echoed line, and a complaint
/// when the command is unknown.
pub open spec fn echo_lines(line: Seq<char>) -> Seq<Seq<char>> {
    let w = words(line)[0];
    if command_of(w) == ConsoleCommand::Unknown {
        seq!["> "@ + line, "Unknown command: "@ + w]
    } else {
        seq!["> "@ + line]
    }
}

/// The help text.
pub open spec fn help_lines() -> Seq<Seq<char>> {
    seq![
        "Commands:"@,
        "  /help            - show this help"@,
        "  /clear           - clear console"@,
        "  /spawn <type> <x> <y> <z> - spawn entity of type"@,
        "  /types           - list available entity types"@,
        "  /despawn <index> - despawn dynamic cube by index"@,
        "  /list            - list dynamic entities"@,
        "  /teleport <x> <y> <z> - teleport player"@,
        "  /jump            - make player jump"@,
        "  /save [path]     - save world to .wmap (default levels/default.wmap)"@,
        "  /load [path]     - load world from .wmap"@,
    ]
}

/// The listing lines of one category: its header, then each template with
/// its display name.
pub open spec fn category_lines(cat: Seq<char>, ts: Seq<EntityTemplate>) -> Seq<Seq<char>> {
    seq!["  ["@ + cat + "]"@] + ts.map_values(
        |t: EntityTemplate| "    "@ + t.name@ + "  ("@ + t.display_name@ + ")"@,
    )
}

/// The listing of the categories `cats`, in that order.
pub open spec fn types_listing(cats: Seq<Seq<char>>, k: int) -> Seq<Seq<char>>
    decreases k,
{
    if k <= 0 {
        seq!["Entity types:"@]
    } else {
        types_listing(cats, k - 1) + category_lines(cats[k - 1], in_category(default_templates(), cats[k - 1]))
    }
}

fn push_str_line(out: &mut Vec<String>, s: &str)
    ensures
        strings_view(final(out)@) == strings_view(old(out)@).push(s@),
{
    out.push(String::from_str(s));
    proof {
        assert(strings_view(final(out)@) =~= strings_view(old(out)@).push(s@));
    }
}

impl Console {
    /// A console whose log holds the ready line.
    pub fn new() -> (c: Self)
        ensures
            strings_view(c.log@) == seq![ready_line()],
            c.history@.len() == 0,
            c.history_index == 0,
    {
        let mut log: Vec<String> = Vec::new();
        push_str_line(&mut log, "Console ready. Type /help for commands.");
        proof {
            assert(strings_view(Seq::<String>::empty()).push(ready_line()) =~= seq![ready_line()]);
        }
        Console { log, history: Vec::new(), history_index: 0 }
    }

    /// Take a command line. A line of whitespace only is ignored. Otherwise
    /// it is echoed to the log and kept in the history, an unknown command
    /// is reported, and the command with its arguments (the following
    /// words) is returned for the engine to carry out.
    pub fn submit(&mut self, line: &str) -> (r: Option<(ConsoleCommand, Vec<String>)>)
        ensures
            words(line@).len() == 0 ==> r is None && final(self).log@ == old(self).log@
                && final(self).history@ == old(self).history@ && final(self).history_index
                == old(self).history_index,
            words(line@).len() > 0 ==> {
                &&& r matches Some((c, args)) && c == command_of(words(line@)[0]) && strings_view(
                    args@,
                ) == words(line@).skip(1)
                &&& strings_view(final(self).log@) == strings_view(old(self).log@) + echo_lines(line@)
                &&& strings_view(final(self).history@) == strings_view(old(self).history@).push(line@)
                &&& final(self).history_index == final(self).history@.len()
            },
    {
        let ws = split_words(line);
        if ws.len() == 0 {
            return None;
        }
        let ghost wv = strings_view(ws@);
        let ghost log0 = strings_view(self.log@);
        let mut echo = String::from_str("> ");
        echo.append(line);
        self.log.push(echo);
        self.history.push(String::from_str(line));
        self.history_index = self.history.len();
        let mut rest = ws;
        let n = rest.len();
        let cmd_word = rest.remove(0);
        proof {
            assert(cmd_word@ == wv[0]);
        }
        let c = command_of_word(cmd_word.as_str());
        if c == ConsoleCommand::Unknown {
            let mut msg = String::from_str("Unknown command: ");
            msg.append(cmd_word.as_str());
            self.log.push(msg);
        }
        proof {
            assert(rest@.len() == n - 1);
            assert(strings_view(rest@) =~= wv.skip(1));
            assert(strings_view(self.log@) =~= log0 + echo_lines(line@));
            assert(strings_view(self.history@) =~= strings_view(old(self).history@).push(line@));
        }
        Some((c, rest))
    }

    /// Clear the log.
    pub fn clear(&mut self)
        ensures
            final(self).log@.len() == 0,
            final(self).history@ == old(self).history@,
            final(self).history_index == old(self).history_index,
    {
        self.log = Vec::new();
    }

    /// Add a line to the log.
    pub fn print(&mut self, line: String)
        ensures
            strings_view(final(self).log@) == strings_view(old(self).log@).push(line@),
            final(self).history@ == old(self).history@,
            final(self).history_index == old(self).history_index,
    {
        self.log.push(line);
        proof {
            assert(strings_view(self.log@) =~= strings_view(old(self).log@).push(line@));
        }
    }

    /// Add the help text to the log.
    pub fn show_help(&mut self)
        ensures
            strings_view(final(self).log@) == strings_view(old(self).log@) + help_lines(),
            final(self).history@ == old(self).history@,
            final(self).history_index == old(self).history_index,
    {
        let ghost l0 = strings_view(self.log@);
        push_str_line(&mut self.log, "Commands:");
        push_str_line(&mut self.log, "  /help            - show this help");
        push_str_line(&mut self.log, "  /clear           - clear console");
        push_str_line(&mut self.log, "  /spawn <type> <x> <y> <z> - spawn entity of type");
        push_str_line(&mut self.log, "  /types           - list available entity types");
        push_str_line(&mut self.log, "  /despawn <index> - despawn dynamic cube by index");
        push_str_line(&mut self.log, "  /list            - list dynamic entities");
        push_str_line(&mut self.log, "  /teleport <x> <y> <z> - teleport player");
        push_str_line(&mut self.log, "  /jump            - make player jump");
        push_str_line(&mut self.log, "  /save [path]     - save world to .wmap (default levels/default.wmap)");
        push_str_line(&mut self.log, "  /load [path]     - load world from .wmap");
        proof {
            assert(strings_view(self.log@) =~= l0 + help_lines());
        }
    }

    /// Add the entity types to the log: each category in sorted order with
    /// its templates and their display names.
    pub fn show_types(&mut self)
        ensures
            exists|cats: Seq<Seq<char>>|
                #![trigger types_listing(cats, cats.len() as int)]
                (forall|i: int, j: int| 0 <= i < j < cats.len() ==> str_lt(cats[i], cats[j]))
                    && (forall|c: Seq<char>|
                    category_set(default_templates()).contains(c) <==> cats.contains(c))
                    && strings_view(final(self).log@) == strings_view(old(self).log@) + types_listing(
                    cats,
                    cats.len() as int,
                ),
            final(self).history@ == old(self).history@,
            final(self).history_index == old(self).history_index,
    {
        let ghost l0 = strings_view(self.log@);
        push_str_line(&mut self.log, "Entity types:");
        let reg = default_registry();
        let cats = reg.categories();
        let ghost cv = cats@.map_values(|c: &'static str| c@);
        let n = cats.len();
        let mut k: usize = 0;
        while k < n
            invariant
                n == cats@.len(),
                cv == cats@.map_values(|c: &'static str| c@),
                reg@ == default_templates(),
                k <= n,
                strings_view(self.log@) == l0 + types_listing(cv, k as int),
                self.history@ == old(self).history@,
                self.history_index == old(self).history_index,
            decreases n - k,
        {
            let cat = cats[k];
            let ghost before = strings_view(self.log@);
            let mut header = String::from_str("  [");
            header.append(cat);
            header.append("]");
            self.log.push(header);
            let ts = reg.templates_in_category(cat);
            let m = ts.len();
            let mut j: usize = 0;
            while j < m
                invariant
                    m == ts@.len(),
                    j <= m,
                    strings_view(self.log@) == before + seq!["  ["@ + cat@ + "]"@] + ts@.take(j as int).map_values(
                        |t: EntityTemplate| "    "@ + t.name@ + "  ("@ + t.display_name@ + ")"@,
                    ),
                    self.history@ == old(self).history@,
                    self.history_index == old(self).history_index,
                decreases m - j,
            {
                let t = ts[j];
                let mut line = String::from_str("    ");
                line.append(t.name);
                line.append("  (");
                line.append(t.display_name);
                line.append(")");
                let ghost prev = strings_view(self.log@);
                self.log.push(line);
                proof {
                    assert(ts@.take(j + 1) =~= ts@.take(j as int).push(t));
                    assert(strings_view(self.log@) =~= prev.push(line@));
                    assert(strings_view(self.log@) =~= before + seq!["  ["@ + cat@ + "]"@] + ts@.take(j + 1).map_values(
                        |t: EntityTemplate| "    "@ + t.name@ + "  ("@ + t.display_name@ + ")"@,
                    ));
                }
                j = j + 1;
            }
            proof {
                assert(ts@.take(m as int) =~= ts@);
                assert(cv[k as int] == cat@);
                assert(strings_view(self.log@) =~= l0 + types_listing(cv, k + 1));
            }
            k = k + 1;
        }
        proof {
            assert forall|c: Seq<char>| category_set(default_templates()).contains(c) <==> cv.contains(c) by {
                if cv.contains(c) {
                    let i = choose|i: int| 0 <= i < cv.len() && cv[i] == c;
                    assert(cats@[i]@ == c);
                }
                if exists|i: int| 0 <= i < cats@.len() && cats@[i]@ == c {
                    let i = choose|i: int| 0 <= i < cats@.len() && cats@[i]@ == c;
                    assert(cv[i] == c);
                }
            }
            assert forall|i: int, j: int| 0 <= i < j < cv.len() implies str_lt(cv[i], cv[j]) by {
                assert(cv[i] == cats@[i]@);
                assert(cv[j] == cats@[j]@);
            }
            assert(strings_view(self.log@) == strings_view(old(self).log@) + types_listing(cv, cv.len() as int));
        }
    }

    /// What the render thread shows of the console.
    pub fn snapshot(&self, open: bool) -> (s: ConsoleState)
        ensures
            s.open == open,
            strings_view(s.log@) == strings_view(self.log@),
            strings_view(s.history@) == strings_view(self.history@),
    {
        let mut log: Vec<String> = Vec::new();
        let mut i: usize = 0;
        while i < self.log.len()
            invariant
                i <= self.log@.len(),
                strings_view(log@) == strings_view(self.log@.take(i as int)),
            decreases self.log@.len() - i,
        {
            let ghost prev = log@;
            let line = String::from_str(self.log[i].as_str());
            log.push(line);
            proof {
                assert(self.log@.take(i + 1) =~= self.log@.take(i as int).push(self.log@[i as int]));
                assert(strings_view(log@) =~= strings_view(prev).push(line@));
                assert(strings_view(log@) =~= strings_view(self.log@.take(i + 1)));
            }
            i = i + 1;
        }
        let mut history: Vec<String> = Vec::new();
        let mut i: usize = 0;
        while i < self.history.len()
            invariant
                i <= self.history@.len(),
                strings_view(history@) == strings_view(self.history@.take(i as int)),
            decreases self.history@.len() - i,
        {
            let ghost prev = history@;
            let line = String::from_str(self.history[i].as_str());
            history.push(line);
            proof {
                assert(self.history@.take(i + 1) =~= self.history@.take(i as int).push(self.history@[i as int]));
                assert(strings_view(history@) =~= strings_view(prev).push(line@));
                assert(strings_view(history@) =~= strings_view(self.history@.take(i + 1)));
            }
            i = i + 1;
        }
        proof {
            assert(self.log@.take(self.log@.len() as int) =~= self.log@);
            assert(self.history@.take(self.history@.len() as int) =~= self.history@);
        }
        ConsoleState { open, log, history }
    }
}

// --- Choosing what to despawn ----------------------------------------------------------------

/// What `str::parse::<usize>` gives: an optional `+` and one or more
/// decimal digits whose value fits.
pub open spec fn parse_index_spec(s: Seq<char>) -> Option<usize> {
    let d = crate::config::unsigned_digits(s);
    if d.len() > 0 && (forall|i: int| 0 <= i < d.len() ==> #[trigger] crate::config::is_digit(d[i]))
        && crate::config::digits_value(d) <= usize::MAX {
        Some(crate::config::digits_value(d) as usize)
    } else {
        None
    }
}

/// An index written in decimal reads back as itself.
pub proof fn lemma_parse_index_decimal(n: usize)
    ensures
        parse_index_spec(crate::wmesh::decimal(n as nat)) == Some(n),
{
    let x = crate::wmesh::decimal(n as nat);
    crate::config::lemma_decimal_digits(n as nat);
    assert(crate::config::is_digit(x[0]));
    assert(crate::config::unsigned_digits(x) == x);
}

/// Parse an index as `str::parse::<usize>` does.
pub fn parse_index(s: &str) -> (r: Option<usize>)
    ensures
        r == parse_index_spec(s@),
{
    let cs = chars_of(s);
    let n = cs.len();
    let start: usize = if n > 0 && cs[0] == '+' { 1 } else { 0 };
    let ghost d = crate::config::unsigned_digits(s@);
    proof {
        assert(d =~= cs@.skip(start as int));
    }
    if start == n {
        return None;
    }
    let mut value: u128 = 0;
    let mut i: usize = start;
    while i < n
        invariant
            cs@ == s@,
            n == cs@.len(),
            start <= i <= n,
            d == cs@.skip(start as int),
            d == crate::config::unsigned_digits(s@),
            d.len() > 0,
            forall|k: int| 0 <= k < i - start ==> #[trigger] crate::config::is_digit(d[k]),
            value == crate::config::digits_value(d.take(i - start)),
            value <= usize::MAX,
        decreases n - i,
    {
        let c = cs[i];
        if c < '0' || c > '9' {
            proof {
                assert(!crate::config::is_digit(d[i - start]));
            }
            return None;
        }
        proof {
            let t = d.take(i - start + 1);
            assert(t.drop_last() =~= d.take(i - start));
            assert(t.last() == c);
        }
        value = value * 10 + ((c as u32) - ('0' as u32)) as u128;
        if value > usize::MAX as u128 {
            proof {
                if forall|k: int| 0 <= k < d.len() ==> #[trigger] crate::config::is_digit(d[k]) {
                    crate::config::lemma_digits_value_grows(d, i - start + 1, d.len() as int);
                    assert(d.take(d.len() as int) =~= d);
                }
            }
            return None;
        }
        i = i + 1;
    }
    proof {
        assert(d.take(n - start) =~= d);
    }
    Some(value as usize)
}

/// The dynamic entities other than the player, in order.
pub open spec fn others(dynamic: Seq<Entity>, player: Entity) -> Seq<Entity> {
    dynamic.filter(|e: Entity| e != player)
}

/// The entity `/despawn <index>` names: the `index`-th dynamic entity
/// other than the player. `Err` gives how many there are when the index
/// is out of range.
pub fn despawn_target(dynamic: &[Entity], player: Entity, index: usize) -> (r: Result<Entity, usize>)
    ensures
        index < others(dynamic@, player).len() ==> r == Ok::<Entity, usize>(others(dynamic@, player)[index as int]),
        index >= others(dynamic@, player).len() ==> r == Err::<Entity, usize>(others(dynamic@, player).len() as usize),
{
    let mut list: Vec<Entity> = Vec::new();
    let mut i: usize = 0;
    while i < dynamic.len()
        invariant
            i <= dynamic@.len(),
            list@ == others(dynamic@.take(i as int), player),
        decreases dynamic@.len() - i,
    {
        let e = dynamic[i];
        proof {
            assert(dynamic@.take(i + 1).drop_last() =~= dynamic@.take(i as int));
            assert(dynamic@.take(i + 1).last() == e);
            reveal(Seq::filter);
        }
        if e != player {
            list.push(e);
        }
        i = i + 1;
    }
    proof {
        assert(dynamic@.take(dynamic@.len() as int) =~= dynamic@);
    }
    if index >= list.len() {
        return Err(list.len());
    }
    Ok(list[index])
}

} // verus!
