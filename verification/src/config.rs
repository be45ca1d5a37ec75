//! Engine configuration: defaults, overlays from the game and user config
//! files, and command-line overrides.

use vstd::prelude::*;
use crate::text::same_str;
use crate::wpak::chars_of;

verus! {

/// The engine's settings. Paths are held as strings.
#[derive(Clone, Debug)]
pub struct WaranerConfig {
    pub window_title: String,
    pub window_width: u32,
    pub window_height: u32,
    pub fullscreen: bool,
    pub vsync: bool,
    pub data_path: String,
    pub asset_archives: Vec<String>,
    pub main_script: String,
    pub log_level: String,
    /// Directory where the config files are stored (data path / configs).
    pub config_dir: String,
}

/// The settings of `game.cfg`, each optional.
#[derive(Clone, Debug)]
pub struct GameConfig {
    pub window_title: Option<String>,
    pub log_level: Option<String>,
    pub main_script: Option<String>,
    pub asset_archives: Option<Vec<String>>,
    pub data_path: Option<String>,
}

/// The settings of `user.cfg`, each optional.
#[derive(Clone, Copy, Debug, PartialEq, Eq, Structural)]
pub struct UserConfig {
    pub window_width: Option<u32>,
    pub window_height: Option<u32>,
    pub fullscreen: Option<bool>,
    pub vsync: Option<bool>,
}

/// What a configuration holds, strings as sequences.
pub ghost struct ConfigView {
    pub window_title: Seq<char>,
    pub window_width: u32,
    pub window_height: u32,
    pub fullscreen: bool,
    pub vsync: bool,
    pub data_path: Seq<char>,
    pub asset_archives: Seq<Seq<char>>,
    pub main_script: Seq<char>,
    pub log_level: Seq<char>,
    pub config_dir: Seq<char>,
}

pub open spec fn strings_view(v: Seq<String>) -> Seq<Seq<char>> {
    v.map_values(|s: String| s@)
}

impl View for WaranerConfig {
    type V = ConfigView;

    open spec fn view(&self) -> ConfigView {
        ConfigView {
            window_title: self.window_title@,
            window_width: self.window_width,
            window_height: self.window_height,
            fullscreen: self.fullscreen,
            vsync: self.vsync,
            data_path: self.data_path@,
            asset_archives: strings_view(self.asset_archives@),
            main_script: self.main_script@,
            log_level: self.log_level@,
            config_dir: self.config_dir@,
        }
    }
}

/// The default settings.
pub open spec fn default_config() -> ConfigView {
    ConfigView {
        window_title: "Waraner Engine"@,
        window_width: 1280,
        window_height: 720,
        fullscreen: false,
        vsync: true,
        data_path: "."@,
        asset_archives: seq![
            "pak_0000.wpak"@,
            "pak_0001.wpak"@,
            "pak_0002.wpak"@,
            "pak_0003.wpak"@,
        ],
        main_script: "main"@,
        log_level: "info"@,
        config_dir: "configs"@,
    }
}

fn owned(s: &str) -> (r: String)
    ensures
        r@ == s@,
{
    s.to_owned()
}

impl Default for WaranerConfig {
    fn default() -> (c: Self)
        ensures
            c@ == default_config(),
    {
        let archives = vec![
            owned("pak_0000.wpak"),
            owned("pak_0001.wpak"),
            owned("pak_0002.wpak"),
            owned("pak_0003.wpak"),
        ];
        let c = WaranerConfig {
            window_title: owned("Waraner Engine"),
            window_width: 1280,
            window_height: 720,
            fullscreen: false,
            vsync: true,
            data_path: owned("."),
            asset_archives: archives,
            main_script: owned("main"),
            log_level: owned("info"),
            config_dir: owned("configs"),
        };
        proof {
            assert(c@.asset_archives =~= default_config().asset_archives);
        }
        c
    }
}

/// Each setting `game.cfg` holds replaces the current one.
pub open spec fn with_game_config(c: ConfigView, g: GameConfig) -> ConfigView {
    ConfigView {
        window_title: match g.window_title {
            Some(v) => v@,
            None => c.window_title,
        },
        log_level: match g.log_level {
            Some(v) => v@,
            None => c.log_level,
        },
        main_script: match g.main_script {
            Some(v) => v@,
            None => c.main_script,
        },
        asset_archives: match g.asset_archives {
            Some(v) => strings_view(v@),
            None => c.asset_archives,
        },
        data_path: match g.data_path {
            Some(v) => v@,
            None => c.data_path,
        },
        ..c
    }
}

/// A `game.cfg` value replaces the current setting whatever it was, and
/// `game.cfg` never touches the window size, fullscreen, vsync or the
/// configuration directory; a setting it leaves out keeps its value.
pub proof fn lemma_game_config_overrides(c: ConfigView, d: ConfigView, g: GameConfig)
    ensures
        g.window_title matches Some(t) ==> with_game_config(c, g).window_title == t@
            && with_game_config(d, g).window_title == t@,
        g.log_level matches Some(t) ==> with_game_config(c, g).log_level == t@,
        g.main_script matches Some(t) ==> with_game_config(c, g).main_script == t@,
        g.data_path matches Some(t) ==> with_game_config(c, g).data_path == t@,
        g.asset_archives matches Some(v) ==> with_game_config(c, g).asset_archives == v@.map_values(
            |s: String| s@,
        ),
        g.window_title is None ==> with_game_config(c, g).window_title == c.window_title,
        g.log_level is None ==> with_game_config(c, g).log_level == c.log_level,
        g.main_script is None ==> with_game_config(c, g).main_script == c.main_script,
        g.data_path is None ==> with_game_config(c, g).data_path == c.data_path,
        g.asset_archives is None ==> with_game_config(c, g).asset_archives == c.asset_archives,
        with_game_config(c, g).window_width == c.window_width,
        with_game_config(c, g).window_height == c.window_height,
        with_game_config(c, g).fullscreen == c.fullscreen,
        with_game_config(c, g).vsync == c.vsync,
        with_game_config(c, g).config_dir == c.config_dir,
{
}

/// A `user.cfg` value replaces its setting; a setting it leaves out keeps
/// its value; and `user.cfg` touches nothing but the window size,
/// fullscreen and vsync.
pub proof fn lemma_user_config_fields(c: ConfigView, u: UserConfig)
    ensures
        with_user_config(c, u).window_width == (match u.window_width {
            Some(v) => v,
            None => c.window_width,
        }),
        with_user_config(c, u).window_height == (match u.window_height {
            Some(v) => v,
            None => c.window_height,
        }),
        with_user_config(c, u).fullscreen == (match u.fullscreen {
            Some(v) => v,
            None => c.fullscreen,
        }),
        with_user_config(c, u).vsync == (match u.vsync {
            Some(v) => v,
            None => c.vsync,
        }),
        with_user_config(c, u).window_title == c.window_title,
        with_user_config(c, u).data_path == c.data_path,
        with_user_config(c, u).asset_archives == c.asset_archives,
        with_user_config(c, u).main_script == c.main_script,
        with_user_config(c, u).log_level == c.log_level,
        with_user_config(c, u).config_dir == c.config_dir,
{
}

/// The user-configurable settings of a configuration, all present.
pub open spec fn saved_user_config(c: ConfigView) -> UserConfig {
    UserConfig {
        window_width: Some(c.window_width),
        window_height: Some(c.window_height),
        fullscreen: Some(c.fullscreen),
        vsync: Some(c.vsync),
    }
}

/// Saving the user settings and applying them again changes nothing; applied
/// to another configuration they carry over exactly the four user settings.
pub proof fn lemma_user_config_round_trip(c: ConfigView, other: ConfigView)
    ensures
        with_user_config(c, saved_user_config(c)) == c,
        with_user_config(other, saved_user_config(c)) == (ConfigView {
            window_width: c.window_width,
            window_height: c.window_height,
            fullscreen: c.fullscreen,
            vsync: c.vsync,
            ..other
        }),
{
}

/// Each setting `user.cfg` holds replaces the current one.
pub open spec fn with_user_config(c: ConfigView, u: UserConfig) -> ConfigView {
    ConfigView {
        window_width: match u.window_width {
            Some(v) => v,
            None => c.window_width,
        },
        window_height: match u.window_height {
            Some(v) => v,
            None => c.window_height,
        },
        fullscreen: match u.fullscreen {
            Some(v) => v,
            None => c.fullscreen,
        },
        vsync: match u.vsync {
            Some(v) => v,
            None => c.vsync,
        },
        ..c
    }
}

impl WaranerConfig {
    /// Overlay the settings of `game.cfg`.
    pub fn apply_game_config(&mut self, g: GameConfig)
        ensures
            final(self)@ == with_game_config(old(self)@, g),
    {
        let ghost gv = g;
        let GameConfig { window_title, log_level, main_script, asset_archives, data_path } = g;
        match window_title {
            Some(v) => {
                self.window_title = v;
            },
            None => {},
        }
        match log_level {
            Some(v) => {
                self.log_level = v;
            },
            None => {},
        }
        match main_script {
            Some(v) => {
                self.main_script = v;
            },
            None => {},
        }
        match asset_archives {
            Some(v) => {
                self.asset_archives = v;
            },
            None => {},
        }
        match data_path {
            Some(v) => {
                self.data_path = v;
            },
            None => {},
        }
        proof {
            assert(self@ =~= with_game_config(old(self)@, gv));
        }
    }

    /// Overlay the settings of `user.cfg`.
    pub fn apply_user_config(&mut self, u: UserConfig)
        ensures
            final(self)@ == with_user_config(old(self)@, u),
    {
        match u.window_width {
            Some(v) => {
                self.window_width = v;
            },
            None => {},
        }
        match u.window_height {
            Some(v) => {
                self.window_height = v;
            },
            None => {},
        }
        match u.fullscreen {
            Some(v) => {
                self.fullscreen = v;
            },
            None => {},
        }
        match u.vsync {
            Some(v) => {
                self.vsync = v;
            },
            None => {},
        }
    }

    /// The user-configurable settings, as `user.cfg` stores them.
    pub fn user_config(&self) -> (u: UserConfig)
        ensures
            u == saved_user_config(self@),
    {
        UserConfig {
            window_width: Some(self.window_width),
            window_height: Some(self.window_height),
            fullscreen: Some(self.fullscreen),
            vsync: Some(self.vsync),
        }
    }
}

// --- Parsing numbers -------------------------------------------------------------------

pub open spec fn is_digit(c: char) -> bool {
    '0' <= c && c <= '9'
}

/// The value of a string of decimal digits.
pub open spec fn digits_value(s: Seq<char>) -> nat
    decreases s.len(),
{
    if s.len() == 0 {
        0
    } else {
        digits_value(s.drop_last()) * 10 + ((s.last() as u32) - ('0' as u32)) as nat
    }
}

/// What `str::parse::<u32>` gives: an optional `+` followed by one or more
/// decimal digits whose value fits in 32 bits.
/// The digits of a number: the text without one leading `+`.
pub open spec fn unsigned_digits(s: Seq<char>) -> Seq<char> {
    if s.len() > 0 && s[0] == '+' {
        s.skip(1)
    } else {
        s
    }
}

pub open spec fn parse_u32_spec(s: Seq<char>) -> Option<u32> {
    let d = unsigned_digits(s);
    if d.len() > 0 && (forall|i: int| 0 <= i < d.len() ==> #[trigger] is_digit(d[i])) && digits_value(d)
        <= u32::MAX {
        Some(digits_value(d) as u32)
    } else {
        None
    }
}

pub(crate) proof fn lemma_decimal_digits(n: nat)
    ensures
        crate::wmesh::decimal(n).len() > 0,
        forall|i: int| 0 <= i < crate::wmesh::decimal(n).len() ==> #[trigger] is_digit(crate::wmesh::decimal(n)[i]),
        digits_value(crate::wmesh::decimal(n)) == n,
    decreases n,
{
    let x = crate::wmesh::decimal(n);
    let d = (n % 10) as nat;
    let c = crate::wmesh::digit_char(d);
    assert(is_digit(c) && (c as u32) - ('0' as u32) == d) by {
        assert(d < 10);
        assert(d == 0 || d == 1 || d == 2 || d == 3 || d == 4 || d == 5 || d == 6 || d == 7 || d == 8 || d == 9);
    }
    if n < 10 {
        assert(d == n);
        assert(x == seq![c]);
        assert(x.drop_last() =~= Seq::<char>::empty());
        assert(x.last() == c);
        assert(digits_value(x) == digits_value(x.drop_last()) * 10 + ((x.last() as u32) - ('0' as u32)) as nat);
    } else {
        lemma_decimal_digits(n / 10);
        let y = crate::wmesh::decimal(n / 10);
        assert(x == y.push(c));
        assert(x.drop_last() =~= y);
        assert forall|i: int| 0 <= i < x.len() implies #[trigger] is_digit(x[i]) by {
            if i < y.len() {
                assert(x[i] == y[i]);
            }
        }
        assert(x.last() == c);
        assert(digits_value(x) == digits_value(x.drop_last()) * 10 + ((x.last() as u32) - ('0' as u32)) as nat);
        assert((n / 10) * 10 + n % 10 == n) by (nonlinear_arith);
    }
}

/// A number written in decimal reads back as itself.
pub proof fn lemma_parse_decimal(n: u32)
    ensures
        parse_u32_spec(crate::wmesh::decimal(n as nat)) == Some(n),
{
    let x = crate::wmesh::decimal(n as nat);
    lemma_decimal_digits(n as nat);
    assert(is_digit(x[0]));
    assert(unsigned_digits(x) == x);
}

/// Parse an unsigned 32-bit decimal number as `str::parse::<u32>` does.
pub fn parse_u32(s: &str) -> (r: Option<u32>)
    ensures
        r == parse_u32_spec(s@),
{
    let cs = chars_of(s);
    let n = cs.len();
    let start: usize = if n > 0 && cs[0] == '+' { 1 } else { 0 };
    let ghost d = unsigned_digits(s@);
    proof {
        assert(d =~= cs@.skip(start as int));
    }
    if start == n {
        return None;
    }
    let mut value: u64 = 0;
    let mut i: usize = start;
    while i < n
        invariant
            cs@ == s@,
            n == cs@.len(),
            start <= i <= n,
            d == cs@.skip(start as int),
            d == unsigned_digits(s@),
            d.len() > 0,
            forall|k: int| 0 <= k < i - start ==> #[trigger] is_digit(d[k]),
            value == digits_value(d.take(i - start)),
            value <= u32::MAX,
        decreases n - i,
    {
        let c = cs[i];
        if c < '0' || c > '9' {
            proof {
                assert(!is_digit(d[i - start]));
            }
            return None;
        }
        proof {
            let t = d.take(i - start + 1);
            assert(t.drop_last() =~= d.take(i - start));
            assert(t.last() == c);
        }
        value = value * 10 + ((c as u32) - ('0' as u32)) as u64;
        if value > 0xFFFF_FFFFu64 {
            proof {
                if forall|k: int| 0 <= k < d.len() ==> #[trigger] is_digit(d[k]) {
                    lemma_digits_value_grows(d, i - start + 1, d.len() as int);
                    assert(d.take(d.len() as int) =~= d);
                }
            }
            return None;
        }
        i = i + 1;
    }
    proof {
        assert(d.take(n - start) =~= d);
    }
    Some(value as u32)
}

pub(crate) proof fn lemma_digits_value_grows(d: Seq<char>, a: int, b: int)
    requires
        0 <= a <= b <= d.len(),
        forall|k: int| 0 <= k < b ==> #[trigger] is_digit(d[k]),
    ensures
        digits_value(d.take(a)) <= digits_value(d.take(b)),
    decreases b - a,
{
    if a < b {
        lemma_digits_value_grows(d, a, b - 1);
        let t = d.take(b);
        assert(t.drop_last() =~= d.take(b - 1));
    }
}

// --- Command-line arguments -----------------------------------------------------------

/// A number argument, or `default` when it does not parse.
pub open spec fn number_or(s: Seq<char>, default: u32) -> u32 {
    match parse_u32_spec(s) {
        Some(v) => v,
        None => default,
    }
}

/// The settings after the arguments from position `i` on: `--data-path`
/// (or `--data_dir`), `--width`, `--height`, `--title`, `--log-level` and
/// `--main-script` take the next argument when there is one; `--fullscreen`,
/// `--vsync` and `--no-vsync` set their flags; anything else is skipped.
pub open spec fn with_args_from(c: ConfigView, args: Seq<Seq<char>>, i: int) -> ConfigView
    decreases args.len() - i,
{
    if i < 0 || i >= args.len() {
        c
    } else {
        let a = args[i];
        let next = i + 1 < args.len();
        if a == "--data-path"@ || a == "--data_dir"@ {
            if next {
                with_args_from(ConfigView { data_path: args[i + 1], ..c }, args, i + 2)
            } else {
                with_args_from(c, args, i + 1)
            }
        } else if a == "--width"@ {
            if next {
                with_args_from(
                    ConfigView { window_width: number_or(args[i + 1], 1280), ..c },
                    args,
                    i + 2,
                )
            } else {
                with_args_from(c, args, i + 1)
            }
        } else if a == "--height"@ {
            if next {
                with_args_from(
                    ConfigView { window_height: number_or(args[i + 1], 720), ..c },
                    args,
                    i + 2,
                )
            } else {
                with_args_from(c, args, i + 1)
            }
        } else if a == "--title"@ {
            if next {
                with_args_from(ConfigView { window_title: args[i + 1], ..c }, args, i + 2)
            } else {
                with_args_from(c, args, i + 1)
            }
        } else if a == "--fullscreen"@ {
            with_args_from(ConfigView { fullscreen: true, ..c }, args, i + 1)
        } else if a == "--vsync"@ {
            with_args_from(ConfigView { vsync: true, ..c }, args, i + 1)
        } else if a == "--no-vsync"@ {
            with_args_from(ConfigView { vsync: false, ..c }, args, i + 1)
        } else if a == "--log-level"@ {
            if next {
                with_args_from(ConfigView { log_level: args[i + 1], ..c }, args, i + 2)
            } else {
                with_args_from(c, args, i + 1)
            }
        } else if a == "--main-script"@ {
            if next {
                with_args_from(ConfigView { main_script: args[i + 1], ..c }, args, i + 2)
            } else {
                with_args_from(c, args, i + 1)
            }
        } else {
            with_args_from(c, args, i + 1)
        }
    }
}

/// Each value option sets its own setting to the argument that follows it,
/// and each flag sets its own flag: for any settings `c` and program name,
/// `[prog, "--main-script", v]` sets the main script to `v`, and likewise
/// `--data-path` (or `--data_dir`), `--title` and `--log-level` set the data
/// path, window title and log level; `--width` and `--height` set the window
/// size to the number `v` spells (the default size when it spells none);
/// `--fullscreen`, `--vsync` and `--no-vsync` set their flags. Nothing else
/// changes.
pub proof fn lemma_each_option_sets_its_field(c: ConfigView, prog: Seq<char>, v: Seq<char>)
    ensures
        with_args_from(c, seq![prog, "--main-script"@, v], 1) == (ConfigView { main_script: v, ..c }),
        with_args_from(c, seq![prog, "--data-path"@, v], 1) == (ConfigView { data_path: v, ..c }),
        with_args_from(c, seq![prog, "--data_dir"@, v], 1) == (ConfigView { data_path: v, ..c }),
        with_args_from(c, seq![prog, "--title"@, v], 1) == (ConfigView { window_title: v, ..c }),
        with_args_from(c, seq![prog, "--log-level"@, v], 1) == (ConfigView { log_level: v, ..c }),
        with_args_from(c, seq![prog, "--width"@, v], 1) == (ConfigView {
            window_width: number_or(v, 1280),
            ..c
        }),
        with_args_from(c, seq![prog, "--height"@, v], 1) == (ConfigView {
            window_height: number_or(v, 720),
            ..c
        }),
        with_args_from(c, seq![prog, "--fullscreen"@], 1) == (ConfigView { fullscreen: true, ..c }),
        with_args_from(c, seq![prog, "--vsync"@], 1) == (ConfigView { vsync: true, ..c }),
        with_args_from(c, seq![prog, "--no-vsync"@], 1) == (ConfigView { vsync: false, ..c }),
        with_args_from(c, seq![prog], 1) == c,
{
    reveal_strlit("--data-path");
    reveal_strlit("--data_dir");
    reveal_strlit("--width");
    reveal_strlit("--height");
    reveal_strlit("--title");
    reveal_strlit("--fullscreen");
    reveal_strlit("--vsync");
    reveal_strlit("--no-vsync");
    reveal_strlit("--log-level");
    reveal_strlit("--main-script");
    assert("--data_dir"@.len() != "--data-path"@.len());
    assert("--data_dir"@ != "--data-path"@);
    assert("--width"@.len() != "--data-path"@.len());
    assert("--width"@ != "--data-path"@);
    assert("--width"@.len() != "--data_dir"@.len());
    assert("--width"@ != "--data_dir"@);
    assert("--height"@.len() != "--data-path"@.len());
    assert("--height"@ != "--data-path"@);
    assert("--height"@.len() != "--data_dir"@.len());
    assert("--height"@ != "--data_dir"@);
    assert("--height"@.len() != "--width"@.len());
    assert("--height"@ != "--width"@);
    assert("--title"@.len() != "--data-path"@.len());
    assert("--title"@ != "--data-path"@);
    assert("--title"@.len() != "--data_dir"@.len());
    assert("--title"@ != "--data_dir"@);
    assert("--title"@[2] != "--width"@[2]);
    assert("--title"@ != "--width"@);
    assert("--title"@.len() != "--height"@.len());
    assert("--title"@ != "--height"@);
    assert("--fullscreen"@.len() != "--data-path"@.len());
    assert("--fullscreen"@ != "--data-path"@);
    assert("--fullscreen"@.len() != "--data_dir"@.len());
    assert("--fullscreen"@ != "--data_dir"@);
    assert("--fullscreen"@.len() != "--width"@.len());
    assert("--fullscreen"@ != "--width"@);
    assert("--fullscreen"@.len() != "--height"@.len());
    assert("--fullscreen"@ != "--height"@);
    assert("--fullscreen"@.len() != "--title"@.len());
    assert("--fullscreen"@ != "--title"@);
    assert("--vsync"@.len() != "--data-path"@.len());
    assert("--vsync"@ != "--data-path"@);
    assert("--vsync"@.len() != "--data_dir"@.len());
    assert("--vsync"@ != "--data_dir"@);
    assert("--vsync"@[2] != "--width"@[2]);
    assert("--vsync"@ != "--width"@);
    assert("--vsync"@.len() != "--height"@.len());
    assert("--vsync"@ != "--height"@);
    assert("--vsync"@[2] != "--title"@[2]);
    assert("--vsync"@ != "--title"@);
    assert("--vsync"@.len() != "--fullscreen"@.len());
    assert("--vsync"@ != "--fullscreen"@);
    assert("--no-vsync"@.len() != "--data-path"@.len());
    assert("--no-vsync"@ != "--data-path"@);
    assert("--no-vsync"@[2] != "--data_dir"@[2]);
    assert("--no-vsync"@ != "--data_dir"@);
    assert("--no-vsync"@.len() != "--width"@.len());
    assert("--no-vsync"@ != "--width"@);
    assert("--no-vsync"@.len() != "--height"@.len());
    assert("--no-vsync"@ != "--height"@);
    assert("--no-vsync"@.len() != "--title"@.len());
    assert("--no-vsync"@ != "--title"@);
    assert("--no-vsync"@.len() != "--fullscreen"@.len());
    assert("--no-vsync"@ != "--fullscreen"@);
    assert("--no-vsync"@.len() != "--vsync"@.len());
    assert("--no-vsync"@ != "--vsync"@);
    assert("--log-level"@[2] != "--data-path"@[2]);
    assert("--log-level"@ != "--data-path"@);
    assert("--log-level"@.len() != "--data_dir"@.len());
    assert("--log-level"@ != "--data_dir"@);
    assert("--log-level"@.len() != "--width"@.len());
    assert("--log-level"@ != "--width"@);
    assert("--log-level"@.len() != "--height"@.len());
    assert("--log-level"@ != "--height"@);
    assert("--log-level"@.len() != "--title"@.len());
    assert("--log-level"@ != "--title"@);
    assert("--log-level"@.len() != "--fullscreen"@.len());
    assert("--log-level"@ != "--fullscreen"@);
    assert("--log-level"@.len() != "--vsync"@.len());
    assert("--log-level"@ != "--vsync"@);
    assert("--log-level"@.len() != "--no-vsync"@.len());
    assert("--log-level"@ != "--no-vsync"@);
    assert("--main-script"@.len() != "--data-path"@.len());
    assert("--main-script"@ != "--data-path"@);
    assert("--main-script"@.len() != "--data_dir"@.len());
    assert("--main-script"@ != "--data_dir"@);
    assert("--main-script"@.len() != "--width"@.len());
    assert("--main-script"@ != "--width"@);
    assert("--main-script"@.len() != "--height"@.len());
    assert("--main-script"@ != "--height"@);
    assert("--main-script"@.len() != "--title"@.len());
    assert("--main-script"@ != "--title"@);
    assert("--main-script"@.len() != "--fullscreen"@.len());
    assert("--main-script"@ != "--fullscreen"@);
    assert("--main-script"@.len() != "--vsync"@.len());
    assert("--main-script"@ != "--vsync"@);
    assert("--main-script"@.len() != "--no-vsync"@.len());
    assert("--main-script"@ != "--no-vsync"@);
    assert("--main-script"@.len() != "--log-level"@.len());
    assert("--main-script"@ != "--log-level"@);
    reveal_with_fuel(with_args_from, 3);
}

fn clone_string(s: &String) -> (r: String)
    ensures
        r@ == s@,
{
    s.clone()
}

impl WaranerConfig {
    /// Apply command-line arguments; the first argument (the program name)
    /// is skipped.
    pub fn apply_args(&mut self, args: &[String])
        ensures
            final(self)@ == with_args_from(old(self)@, strings_view(args@), 1),
    {
        proof {
            reveal_strlit("--data-path");
            reveal_strlit("--data_dir");
            reveal_strlit("--width");
            reveal_strlit("--height");
            reveal_strlit("--title");
            reveal_strlit("--fullscreen");
            reveal_strlit("--vsync");
            reveal_strlit("--no-vsync");
            reveal_strlit("--log-level");
            reveal_strlit("--main-script");
        }
        let ghost av = strings_view(args@);
        let ghost target = with_args_from(old(self)@, av, 1);
        let n = args.len();
        let mut i: usize = 1;
        while i < n
            invariant
                n == args@.len(),
                av == strings_view(args@),
                1 <= i,
                target == with_args_from(self@, av, i as int),
            decreases n - i,
        {
            let a = args[i].as_str();
            let next = i + 1 < n;
            proof {
                assert(av[i as int] == a@);
                if next {
                    assert(av[i + 1] == args@[i + 1]@);
                }
            }
            if same_str(a, "--data-path") || same_str(a, "--data_dir") {
                if next {
                    self.data_path = clone_string(&args[i + 1]);
                    i = i + 1;
                }
            } else if same_str(a, "--width") {
                if next {
                    self.window_width = match parse_u32(args[i + 1].as_str()) {
                        Some(v) => v,
                        None => 1280,
                    };
                    i = i + 1;
                }
            } else if same_str(a, "--height") {
                if next {
                    self.window_height = match parse_u32(args[i + 1].as_str()) {
                        Some(v) => v,
                        None => 720,
                    };
                    i = i + 1;
                }
            } else if same_str(a, "--title") {
                if next {
                    self.window_title = clone_string(&args[i + 1]);
                    i = i + 1;
                }
            } else if same_str(a, "--fullscreen") {
                self.fullscreen = true;
            } else if same_str(a, "--vsync") {
                self.vsync = true;
            } else if same_str(a, "--no-vsync") {
                self.vsync = false;
            } else if same_str(a, "--log-level") {
                if next {
                    self.log_level = clone_string(&args[i + 1]);
                    i = i + 1;
                }
            } else if same_str(a, "--main-script") {
                if next {
                    self.main_script = clone_string(&args[i + 1]);
                    i = i + 1;
                }
            }
            i = i + 1;
        }
    }
}

// --- The generated `game.cfg` ----------------------------------------------------------------

/// What `{:?}` shows for a string: the string in double quotes, escaped.
pub uninterp spec fn debug_text(s: Seq<char>) -> Seq<char>;

/// Printable ASCII other than `"` and `\`, which `{:?}` shows as itself.
pub open spec fn plain_char(c: char) -> bool {
    ' ' <= c && c <= '~' && c != '"' && c != '\\'
}

/// `format!("{:?}", s)` for a string. The contract names the result, and
/// states that text of plain characters is shown in double quotes.
#[verifier::external_body]
fn debug_quoted(s: &str) -> (r: String)
    ensures
        r@ == debug_text(s@),
        (forall|i: int| 0 <= i < s@.len() ==> plain_char(#[trigger] s@[i])) ==> r@ == seq!['"'] + s@
            + seq!['"'],
{
    format!("{:?}", s)
}

/// What `{:?}` shows for a list of strings: each shown with `{:?}`,
/// separated by `, `, in brackets.
pub open spec fn list_text(items: Seq<Seq<char>>) -> Seq<char> {
    seq!['['] + list_items(items, items.len() as int) + seq![']']
}

pub open spec fn list_items(items: Seq<Seq<char>>, k: int) -> Seq<char>
    decreases k,
{
    if k <= 0 {
        Seq::empty()
    } else if k == 1 {
        debug_text(items[0])
    } else {
        list_items(items, k - 1) + seq![','] + seq![' '] + debug_text(items[k - 1])
    }
}

/// The text of the `game.cfg` a build writes for a project.
pub open spec fn game_config_text_spec(project_name: Seq<char>, archives: Seq<Seq<char>>) -> Seq<char> {
    "window_title = "@ + debug_text(project_name) + "\nlog_level = \"info\"\nmain_script = "@
        + debug_text("main"@) + "\nasset_archives = "@ + list_text(archives)
        + "\ndata_path = \".\"\n"@
}

/// The text of the `game.cfg` a build writes for a project: its name as the
/// window title, log level `info`, main script `main`, its archives, and
/// data path `.`.
pub fn game_config_text(project_name: &str, asset_archives: &[String]) -> (r: String)
    ensures
        r@ == game_config_text_spec(project_name@, strings_view(asset_archives@)),
{
    let ghost items = strings_view(asset_archives@);
    let mut list = String::from_str("[");
    proof {
        reveal_strlit("[");
    }
    let n = asset_archives.len();
    let mut k: usize = 0;
    while k < n
        invariant
            n == asset_archives@.len(),
            items == strings_view(asset_archives@),
            k <= n,
            list@ == seq!['['] + list_items(items, k as int),
        decreases n - k,
    {
        if k > 0 {
            list.append(", ");
            proof {
                reveal_strlit(", ");
            }
        }
        let q = debug_quoted(asset_archives[k].as_str());
        list.append(q.as_str());
        proof {
            assert(items[k as int] == asset_archives@[k as int]@);
            if k > 0 {
                assert(list@ =~= seq!['['] + list_items(items, k + 1));
            } else {
                assert(list@ =~= seq!['['] + list_items(items, k + 1));
            }
        }
        k = k + 1;
    }
    list.append("]");
    let mut out = String::from_str("window_title = ");
    out.append(debug_quoted(project_name).as_str());
    out.append("\nlog_level = \"info\"\nmain_script = ");
    out.append(debug_quoted("main").as_str());
    out.append("\nasset_archives = ");
    out.append(list.as_str());
    out.append("\ndata_path = \".\"\n");
    proof {
        reveal_strlit("]");
        assert(list@ =~= list_text(items));
        assert(out@ =~= game_config_text_spec(project_name@, items));
    }
    out
}

} // verus!
