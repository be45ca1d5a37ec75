//! Engine state that is plain data: the console, messages from the render
//! thread, script hot-reload bookkeeping, the runtime context, and the
//! user settings scripts can read and write.

use vstd::prelude::*;
use crate::config::{parse_u32, parse_u32_spec, WaranerConfig};
use crate::text::same_str;
use crate::wmesh::{decimal, push_decimal};
use crate::wpak::{ascii_lower_char, chars_of, string_from_chars};

verus! {

/// The in-game console: whether it is open, its log and its history.
#[derive(Clone, Debug)]
pub struct ConsoleState {
    pub open: bool,
    pub log: Vec<String>,
    pub history: Vec<String>,
}

/// A message from the render thread to the main loop.
#[derive(Clone, Debug)]
pub enum MainMessage {
    ConsoleCommand(String),
}

/// The runtime context handed across the C interface.
pub struct WaranerContext {
    pub config: WaranerConfig,
}

/// Script hot-reload bookkeeping: the script directory and the last
/// modification time seen for each script (by file stem).
pub struct HotReloadState {
    script_dir: String,
    last_modified: Vec<(String, u128)>,
}

/// Names are distinct.
pub open spec fn distinct_names(v: Seq<(String, u128)>) -> bool {
    forall|i: int, j: int| 0 <= i < j < v.len() ==> (#[trigger] v[i]).0@ != (#[trigger] v[j]).0@
}

/// The modification time recorded for each name.
pub open spec fn times_map(v: Seq<(String, u128)>) -> Map<Seq<char>, u128> {
    Map::new(
        |n: Seq<char>| exists|i: int| 0 <= i < v.len() && v[i].0@ == n,
        |n: Seq<char>| v[choose|i: int| 0 <= i < v.len() && v[i].0@ == n].1,
    )
}

impl View for HotReloadState {
    type V = Map<Seq<char>, u128>;

    closed spec fn view(&self) -> Map<Seq<char>, u128> {
        times_map(self.last_modified@)
    }
}

proof fn lemma_times_at(v: Seq<(String, u128)>, i: int)
    requires
        distinct_names(v),
        0 <= i < v.len(),
    ensures
        times_map(v).contains_key(v[i].0@),
        times_map(v)[v[i].0@] == v[i].1,
{
    let n = v[i].0@;
    assert(0 <= i < v.len() && v[i].0@ == n);
    let j = choose|j: int| 0 <= j < v.len() && v[j].0@ == n;
    if j < i {
        assert(v[j].0@ != v[i].0@);
    } else if j > i {
        assert(v[i].0@ != v[j].0@);
    }
}

impl HotReloadState {
    #[verifier::type_invariant]
    closed spec fn names_distinct(&self) -> bool {
        distinct_names(self.last_modified@)
    }

    /// The script directory being watched.
    pub closed spec fn dir(&self) -> Seq<char> {
        self.script_dir@
    }

    /// The script directory being watched.
    pub fn script_dir(&self) -> (r: &str)
        ensures
            r@ == self.dir(),
    {
        self.script_dir.as_str()
    }

    /// Nothing seen yet.
    pub fn new(script_dir: String) -> (s: Self)
        ensures
            s.dir() == script_dir@,
            s@ == Map::<Seq<char>, u128>::empty(),
    {
        let s = HotReloadState { script_dir, last_modified: Vec::new() };
        proof {
            assert(s@ =~= Map::<Seq<char>, u128>::empty());
        }
        s
    }

    /// Record the modification time of a script. Returns whether the
    /// script had been seen before with a different time (it changed).
    pub fn observe(&mut self, name: String, modified: u128) -> (changed: bool)
        ensures
            final(self)@ == old(self)@.insert(name@, modified),
            changed == (old(self)@.contains_key(name@) && old(self)@[name@] != modified),
            final(self).dir() == old(self).dir(),
    {
        proof {
            use_type_invariant(&*self);
        }
        let ghost old_v = self.last_modified@;
        let ghost dir0 = self.script_dir@;
        let n = self.last_modified.len();
        let mut i: usize = 0;
        while i < n
            invariant
                n == self.last_modified@.len(),
                old_v == self.last_modified@,
                distinct_names(old_v),
                times_map(old_v) == old(self)@,
                dir0 == self.script_dir@,
                dir0 == old(self).dir(),
                i <= n,
                forall|j: int| 0 <= j < i ==> (#[trigger] old_v[j]).0@ != name@,
            decreases n - i,
        {
            if same_str(self.last_modified[i].0.as_str(), name.as_str()) {
                let prev = self.last_modified[i].1;
                let mut v: Vec<(String, u128)> = Vec::new();
                std::mem::swap(&mut v, &mut self.last_modified);
                let ghost name_v = name@;
                v.set(i, (name, modified));
                proof {
                    lemma_times_at(old_v, i as int);
                    assert(distinct_names(v@)) by {
                        assert forall|a: int, b: int| 0 <= a < b < v@.len() implies (#[trigger] v@[a]).0@ != (#[trigger] v@[b]).0@ by {
                            if a != i && b != i {
                                assert(v@[a] == old_v[a] && v@[b] == old_v[b]);
                            } else if a == i {
                                assert(v@[b] == old_v[b]);
                            } else {
                                assert(v@[a] == old_v[a]);
                            }
                        }
                    }
                    assert(times_map(v@) =~= times_map(old_v).insert(name_v, modified)) by {
                        assert forall|k: Seq<char>| #[trigger] times_map(v@).contains_key(k) == times_map(old_v).insert(name_v, modified).contains_key(k) by {
                            if times_map(v@).contains_key(k) {
                                let a = choose|a: int| 0 <= a < v@.len() && v@[a].0@ == k;
                                if a != i {
                                    assert(old_v[a].0@ == k);
                                }
                            }
                            if times_map(old_v).contains_key(k) {
                                let a = choose|a: int| 0 <= a < old_v.len() && old_v[a].0@ == k;
                                if a != i {
                                    assert(v@[a].0@ == k);
                                } else {
                                    assert(v@[a].0@ == k);
                                }
                            }
                            if k == name_v {
                                assert(v@[i as int].0@ == k);
                            }
                        }
                        assert forall|k: Seq<char>| times_map(v@).contains_key(k) implies #[trigger] times_map(v@)[k] == times_map(old_v).insert(name_v, modified)[k] by {
                            let a = choose|a: int| 0 <= a < v@.len() && v@[a].0@ == k;
                            lemma_times_at(v@, a);
                            if a != i {
                                assert(v@[a] == old_v[a]);
                                lemma_times_at(old_v, a);
                            }
                        }
                    }
                }
                self.last_modified = v;
                return prev != modified;
            }
            i = i + 1;
        }
        let ghost name_v = name@;
        let mut v: Vec<(String, u128)> = Vec::new();
        std::mem::swap(&mut v, &mut self.last_modified);
        v.push((name, modified));
        proof {
            assert(!times_map(old_v).contains_key(name_v)) by {
                if times_map(old_v).contains_key(name_v) {
                    let a = choose|a: int| 0 <= a < old_v.len() && old_v[a].0@ == name_v;
                    assert(old_v[a].0@ != name_v);
                }
            }
            assert(distinct_names(v@)) by {
                assert forall|a: int, b: int| 0 <= a < b < v@.len() implies (#[trigger] v@[a]).0@ != (#[trigger] v@[b]).0@ by {
                    if b < n {
                        assert(v@[a] == old_v[a] && v@[b] == old_v[b]);
                    } else {
                        assert(v@[a] == old_v[a]);
                    }
                }
            }
            assert(times_map(v@) =~= times_map(old_v).insert(name_v, modified)) by {
                assert forall|k: Seq<char>| #[trigger] times_map(v@).contains_key(k) == times_map(old_v).insert(name_v, modified).contains_key(k) by {
                    if times_map(v@).contains_key(k) {
                        let a = choose|a: int| 0 <= a < v@.len() && v@[a].0@ == k;
                        if a < n {
                            assert(old_v[a].0@ == k);
                        }
                    }
                    if times_map(old_v).contains_key(k) {
                        let a = choose|a: int| 0 <= a < old_v.len() && old_v[a].0@ == k;
                        assert(v@[a].0@ == k);
                    }
                    if k == name_v {
                        assert(v@[n as int].0@ == k);
                    }
                }
                assert forall|k: Seq<char>| times_map(v@).contains_key(k) implies #[trigger] times_map(v@)[k] == times_map(old_v).insert(name_v, modified)[k] by {
                    let a = choose|a: int| 0 <= a < v@.len() && v@[a].0@ == k;
                    lemma_times_at(v@, a);
                    if a < n {
                        assert(v@[a] == old_v[a]);
                        lemma_times_at(old_v, a);
                    }
                }
            }
        }
        self.last_modified = v;
        false
    }

    /// Record the modification times of the scripts found in one scan.
    /// Returns whether any of them changed since it was last seen.
    pub fn observe_all(&mut self, scripts: Vec<(String, u128)>) -> (changed: bool)
        ensures
            final(self)@ == observed_all(old(self)@, scan_view(scripts@)),
            changed == any_changed(old(self)@, scan_view(scripts@)),
            final(self).dir() == old(self).dir(),
    {
        let ghost sv = scan_view(scripts@);
        let ghost start = self@;
        let n = scripts.len();
        let mut rest = scripts;
        let mut changed = false;
        let mut k: usize = 0;
        while k < n
            invariant
                n == sv.len(),
                k <= n,
                scan_view(rest@) == sv.skip(k as int),
                self@ == observed_all(start, sv.take(k as int)),
                changed == any_changed(start, sv.take(k as int)),
                self.dir() == old(self).dir(),
            decreases n - k,
        {
            let ghost r0 = rest@;
            proof {
                assert(scan_view(r0).len() == r0.len());
                assert(scan_view(r0)[0] == sv.skip(k as int)[0]);
            }
            let (name, t) = rest.remove(0);
            proof {
                assert(r0[0] == (name, t));
                assert(sv[k as int] == (name@, t));
                let tk = sv.take(k + 1);
                assert(tk.drop_last() =~= sv.take(k as int));
                assert(tk.last() == (name@, t));
            }
            let c = self.observe(name, t);
            changed = changed || c;
            proof {
                assert(rest@ =~= r0.subrange(1, r0.len() as int));
                assert forall|j: int| 0 <= j < rest@.len() implies #[trigger] scan_view(rest@)[j]
                    == sv.skip(k + 1)[j] by {
                    assert(scan_view(r0)[j + 1] == sv.skip(k as int)[j + 1]);
                }
                assert(scan_view(rest@) =~= sv.skip(k + 1));
            }
            k = k + 1;
        }
        proof {
            assert(sv.take(n as int) =~= sv);
        }
        changed
    }
}

/// A scan as names and times.
pub open spec fn scan_view(s: Seq<(String, u128)>) -> Seq<(Seq<char>, u128)> {
    Seq::new(s.len(), |i: int| (s[i].0@, s[i].1))
}

/// Observing a script again with the time just recorded reports no change;
/// with another time it reports one.
pub proof fn lemma_observe_twice(m: Map<Seq<char>, u128>, name: Seq<char>, t: u128, t2: u128)
    ensures
        !(m.insert(name, t).contains_key(name) && m.insert(name, t)[name] != t),
        t2 != t ==> (m.insert(name, t).contains_key(name) && m.insert(name, t)[name] != t2),
{
}

/// The times after a scan, observation by observation.
pub open spec fn observed_all(m: Map<Seq<char>, u128>, s: Seq<(Seq<char>, u128)>) -> Map<Seq<char>, u128>
    decreases s.len(),
{
    if s.len() == 0 {
        m
    } else {
        observed_all(m, s.drop_last()).insert(s.last().0, s.last().1)
    }
}

/// Some observation of a scan found a script with a different time.
pub open spec fn any_changed(m: Map<Seq<char>, u128>, s: Seq<(Seq<char>, u128)>) -> bool
    decreases s.len(),
{
    if s.len() == 0 {
        false
    } else {
        let before = observed_all(m, s.drop_last());
        any_changed(m, s.drop_last()) || (before.contains_key(s.last().0) && before[s.last().0]
            != s.last().1)
    }
}

proof fn lemma_observed_all_has(m: Map<Seq<char>, u128>, s: Seq<(Seq<char>, u128)>)
    requires
        forall|i: int, j: int| 0 <= i < j < s.len() ==> s[i].0 != s[j].0,
    ensures
        forall|i: int| 0 <= i < s.len() ==> observed_all(m, s).contains_key(#[trigger] s[i].0)
            && observed_all(m, s)[s[i].0] == s[i].1,
    decreases s.len(),
{
    if s.len() > 0 {
        let t = s.drop_last();
        lemma_observed_all_has(m, t);
        assert forall|i: int| 0 <= i < s.len() implies observed_all(m, s).contains_key(#[trigger] s[i].0)
            && observed_all(m, s)[s[i].0] == s[i].1 by {
            if i < s.len() - 1 {
                assert(t[i] == s[i]);
                assert(s[i].0 != s[s.len() - 1].0);
            }
        }
    }
}

proof fn lemma_rescan_quiet(big: Map<Seq<char>, u128>, s: Seq<(Seq<char>, u128)>, k: int)
    requires
        0 <= k <= s.len(),
        forall|i: int| 0 <= i < s.len() ==> big.contains_key(#[trigger] s[i].0) && big[s[i].0] == s[i].1,
    ensures
        observed_all(big, s.take(k)) == big,
        !any_changed(big, s.take(k)),
    decreases k,
{
    if k > 0 {
        lemma_rescan_quiet(big, s, k - 1);
        let t = s.take(k);
        assert(t.drop_last() =~= s.take(k - 1));
        assert(t.last() == s[k - 1]);
        assert(big.insert(s[k - 1].0, s[k - 1].1) =~= big);
    }
}

/// Scanning the same scripts again right after a scan reports no change,
/// whatever was recorded before, as long as the scan names each script once.
pub proof fn lemma_rescan_reports_nothing(m: Map<Seq<char>, u128>, s: Seq<(Seq<char>, u128)>)
    requires
        forall|i: int, j: int| 0 <= i < j < s.len() ==> s[i].0 != s[j].0,
    ensures
        !any_changed(observed_all(m, s), s),
        observed_all(observed_all(m, s), s) == observed_all(m, s),
{
    lemma_observed_all_has(m, s);
    lemma_rescan_quiet(observed_all(m, s), s, s.len() as int);
    assert(s.take(s.len() as int) =~= s);
}

/// A scan that finds a recorded script with another time reports a change.
pub proof fn lemma_scan_finds_change(m: Map<Seq<char>, u128>, s: Seq<(Seq<char>, u128)>, i: int)
    requires
        0 <= i < s.len(),
        observed_all(m, s.take(i)).contains_key(s[i].0),
        observed_all(m, s.take(i))[s[i].0] != s[i].1,
    ensures
        any_changed(m, s),
    decreases s.len(),
{
    if i == s.len() - 1 {
        assert(s.take(i) =~= s.drop_last());
    } else {
        let t = s.drop_last();
        assert(t.take(i) =~= s.take(i));
        assert(t[i] == s[i]);
        lemma_scan_finds_change(m, t, i);
    }
}

// --- User settings by name ------------------------------------------------------------------

/// Why a user setting could not be set.
#[derive(Clone, Copy, Debug, PartialEq, Eq, Structural)]
pub enum SettingError {
    InvalidNumber,
    UnknownKey,
}

/// The text of a boolean (`bool::to_string`).
pub open spec fn bool_text(b: bool) -> Seq<char> {
    if b {
        "true"@
    } else {
        "false"@
    }
}

/// Text that reads as true: `true` in any ASCII case, or `1`.
pub open spec fn truthy(s: Seq<char>) -> bool {
    (s.len() == 4 && forall|i: int| 0 <= i < 4 ==> #[trigger] ascii_lower_char(s[i]) == "true"@[i])
        || s == "1"@
}

/// What reads as true: `true` in any mix of ASCII case, and `1`; `false`,
/// `0`, the empty text and any text of another length than four (other
/// than `1`) do not.
pub proof fn lemma_truthy_texts(s: Seq<char>)
    ensures
        truthy("true"@),
        truthy("TRUE"@),
        truthy("True"@),
        truthy("1"@),
        !truthy("false"@),
        !truthy("0"@),
        !truthy(Seq::<char>::empty()),
        s.len() != 4 && s != "1"@ ==> !truthy(s),
        s.len() == 4 && truthy(s) ==> forall|i: int| 0 <= i < 4 ==> s[i] == "true"@[i] || s[i] == "TRUE"@[i],
{
    reveal_strlit("true");
    reveal_strlit("TRUE");
    reveal_strlit("True");
    reveal_strlit("1");
    reveal_strlit("false");
    reveal_strlit("0");
    assert(!truthy("0"@)) by {
        assert("0"@[0] != "1"@[0]);
    }
    if s.len() == 4 && truthy(s) {
        assert forall|i: int| 0 <= i < 4 implies s[i] == "true"@[i] || s[i] == "TRUE"@[i] by {
            assert(ascii_lower_char(s[i]) == "true"@[i]);
            assert(i == 0 || i == 1 || i == 2 || i == 3);
        }
    }
    assert(truthy("TRUE"@)) by {
        assert forall|i: int| 0 <= i < 4 implies #[trigger] ascii_lower_char("TRUE"@[i]) == "true"@[i] by {
            assert(i == 0 || i == 1 || i == 2 || i == 3);
        }
    }
    assert(truthy("True"@)) by {
        assert forall|i: int| 0 <= i < 4 implies #[trigger] ascii_lower_char("True"@[i]) == "true"@[i] by {
            assert(i == 0 || i == 1 || i == 2 || i == 3);
        }
    }
    assert(truthy("true"@)) by {
        assert forall|i: int| 0 <= i < 4 implies #[trigger] ascii_lower_char("true"@[i]) == "true"@[i] by {
            assert(i == 0 || i == 1 || i == 2 || i == 3);
        }
    }
}

fn bool_string(b: bool) -> (r: String)
    ensures
        r@ == bool_text(b),
{
    if b {
        "true".to_owned()
    } else {
        "false".to_owned()
    }
}

fn number_string(n: u32) -> (r: String)
    ensures
        r@ == decimal(n as nat),
{
    let mut cs: Vec<char> = Vec::new();
    push_decimal(&mut cs, n as usize);
    proof {
        assert(cs@ =~= decimal(n as nat));
    }
    string_from_chars(&cs)
}

fn is_truthy(s: &str) -> (r: bool)
    ensures
        r == truthy(s@),
{
    proof {
        reveal_strlit("true");
        reveal_strlit("1");
    }
    let cs = chars_of(s);
    if same_str(s, "1") {
        return true;
    }
    if cs.len() != 4 {
        return false;
    }
    let word = ['t', 'r', 'u', 'e'];
    let upper = ['T', 'R', 'U', 'E'];
    let mut i: usize = 0;
    while i < 4
        invariant
            cs@ == s@,
            cs@.len() == 4,
            s@ != "1"@,
            word@ == "true"@,
            upper@ == seq!['T', 'R', 'U', 'E'],
            i <= 4,
            forall|j: int| 0 <= j < i ==> #[trigger] ascii_lower_char(cs@[j]) == "true"@[j],
        decreases 4 - i,
    {
        let c = cs[i];
        let w = word[i];
        let u = upper[i];
        proof {
            reveal_strlit("true");
            assert(i == 0 || i == 1 || i == 2 || i == 3);
            assert(w == "true"@[i as int]);
            assert('a' <= w <= 'z');
            assert(u as u32 + 32 == w as u32);
            assert(ascii_lower_char(c) == w <==> (c == w || c == u));
        }
        if c != w && c != u {
            return false;
        }
        i = i + 1;
    }
    true
}

impl WaranerConfig {
    /// A user setting as text: `window_width`, `window_height`,
    /// `fullscreen` or `vsync`.
    pub fn config_get(&self, key: &str) -> (r: Option<String>)
        ensures
            r matches Some(v) ==> (key@ == "window_width"@ && v@ == decimal(self.window_width as nat))
                || (key@ == "window_height"@ && v@ == decimal(self.window_height as nat)) || (key@
                == "fullscreen"@ && v@ == bool_text(self.fullscreen)) || (key@ == "vsync"@ && v@
                == bool_text(self.vsync)),
            r is None <==> !(key@ == "window_width"@ || key@ == "window_height"@ || key@
                == "fullscreen"@ || key@ == "vsync"@),
    {
        proof {
            reveal_strlit("window_width");
            reveal_strlit("window_height");
            reveal_strlit("fullscreen");
            reveal_strlit("vsync");
            assert("window_width"@.len() == 12);
            assert("window_height"@.len() == 13);
            assert("fullscreen"@.len() == 10);
            assert("vsync"@.len() == 5);
        }
        if same_str(key, "window_width") {
            Some(number_string(self.window_width))
        } else if same_str(key, "window_height") {
            Some(number_string(self.window_height))
        } else if same_str(key, "fullscreen") {
            Some(bool_string(self.fullscreen))
        } else if same_str(key, "vsync") {
            Some(bool_string(self.vsync))
        } else {
            None
        }
    }

    /// Set a user setting from text. Sizes must parse as numbers; flags are
    /// true for `true` (any ASCII case) or `1` and false otherwise.
    pub fn config_set(&mut self, key: &str, value: &str) -> (r: Result<(), SettingError>)
        ensures
            key@ == "window_width"@ ==> match parse_u32_spec(value@) {
                Some(v) => r is Ok && final(self)@ == (crate::config::ConfigView { window_width: v, ..old(self)@ }),
                None => r == Err::<(), SettingError>(SettingError::InvalidNumber) && final(self)@ == old(self)@,
            },
            key@ == "window_height"@ ==> match parse_u32_spec(value@) {
                Some(v) => r is Ok && final(self)@ == (crate::config::ConfigView { window_height: v, ..old(self)@ }),
                None => r == Err::<(), SettingError>(SettingError::InvalidNumber) && final(self)@ == old(self)@,
            },
            key@ == "fullscreen"@ ==> r is Ok && final(self)@ == (crate::config::ConfigView { fullscreen: truthy(value@), ..old(self)@ }),
            key@ == "vsync"@ ==> r is Ok && final(self)@ == (crate::config::ConfigView { vsync: truthy(value@), ..old(self)@ }),
            !(key@ == "window_width"@ || key@ == "window_height"@ || key@ == "fullscreen"@ || key@
                == "vsync"@) ==> r == Err::<(), SettingError>(SettingError::UnknownKey) && final(self)@
                == old(self)@,
    {
        proof {
            reveal_strlit("window_width");
            reveal_strlit("window_height");
            reveal_strlit("fullscreen");
            reveal_strlit("vsync");
            assert("window_width"@.len() == 12);
            assert("window_height"@.len() == 13);
            assert("fullscreen"@.len() == 10);
            assert("vsync"@.len() == 5);
        }
        if same_str(key, "window_width") {
            match parse_u32(value) {
                Some(v) => {
                    self.window_width = v;
                    Ok(())
                },
                None => Err(SettingError::InvalidNumber),
            }
        } else if same_str(key, "window_height") {
            match parse_u32(value) {
                Some(v) => {
                    self.window_height = v;
                    Ok(())
                },
                None => Err(SettingError::InvalidNumber),
            }
        } else if same_str(key, "fullscreen") {
            self.fullscreen = is_truthy(value);
            Ok(())
        } else if same_str(key, "vsync") {
            self.vsync = is_truthy(value);
            Ok(())
        } else {
            Err(SettingError::UnknownKey)
        }
    }
}

} // verus!
