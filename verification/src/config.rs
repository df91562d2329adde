//! Program settings, feeds and their display options.
use vstd::prelude::*;
use crate::error::Result;
use crate::number::{
    bool_text, decimal, i64_to_string, parse_bool, parse_bool_chars, parse_i32, parse_i32_chars,
    parse_u64, parse_u64_chars,
};
use crate::text::{find_in, push_char, push_str, range_eq, split_once, string_from, to_chars, trim, trim_bounds};
use vstd::string::StrSliceExecFns;

verus! {

// ----------------------------------------------------------------------------------
//   - Config -
// ----------------------------------------------------------------------------------

/// The program's settings.
pub struct Config {
    /// Path of the file that lists the feeds.
    pub file_path: String,
    /// Seconds to wait after each toast.
    pub toast_duration: u64,
    /// Seconds between two update cycles.
    pub cycle_interval: u64,
}

/// Why the command line cannot be read.
#[derive(Debug, PartialEq, Eq, Structural)]
pub enum ArgError {
    /// No `--path=..` argument.
    MissingPath,
    /// `--toast=..` is not a `u64`.
    BadToast,
    /// `--interval=..` is not a `u64`.
    BadInterval,
}

/// The texts of the command-line arguments.
pub open spec fn args_view(args: Seq<String>) -> Seq<Seq<char>> {
    args.map_values(|a: String| a@)
}

/// The value of the last `key=value` argument among `args`.
pub open spec fn arg_lookup(args: Seq<Seq<char>>, key: Seq<char>) -> Option<Seq<char>>
    decreases args.len(),
{
    if args.len() == 0 {
        None
    } else {
        match split_once(args.last(), '=') {
            Some((k, v)) => if k == key {
                Some(v)
            } else {
                arg_lookup(args.drop_last(), key)
            },
            None => arg_lookup(args.drop_last(), key),
        }
    }
}

/// The value given for `key` on the command line `args` (program name first).
pub open spec fn arg_value(args: Seq<Seq<char>>, key: Seq<char>) -> Option<Seq<char>> {
    if args.len() == 0 {
        None
    } else {
        arg_lookup(args.drop_first(), key)
    }
}

/// A number of seconds given as `key=..`, or `default` when it is absent.
pub open spec fn seconds_arg(args: Seq<Seq<char>>, key: Seq<char>, default: u64) -> Option<u64> {
    match arg_value(args, key) {
        Some(v) => parse_u64(v),
        None => Some(default),
    }
}

/// Whether the command line gives a path and readable numbers.
pub open spec fn args_error(args: Seq<Seq<char>>) -> Option<ArgError> {
    if arg_value(args, "--path"@) is None {
        Some(ArgError::MissingPath)
    } else if seconds_arg(args, "--toast"@, 0) is None {
        Some(ArgError::BadToast)
    } else if seconds_arg(args, "--interval"@, 0) is None {
        Some(ArgError::BadInterval)
    } else {
        None
    }
}

/// The value of the last `key=value` argument after the program name.
fn find_arg(args: &Vec<String>, key: &str) -> (r: Option<String>)
    ensures
        match r {
            Some(v) => arg_value(args_view(args@), key@) == Some(v@),
            None => arg_value(args_view(args@), key@) is None,
        },
{
    let ghost all = args_view(args@);
    let kc = to_chars(key);
    if args.len() == 0 {
        return None;
    }
    let mut i: usize = args.len();
    assert(all.drop_first() =~= all.subrange(1, i as int));
    while i > 1
        invariant
            1 <= i <= args@.len(),
            all == args_view(args@),
            kc@ == key@,
            arg_value(all, key@) == arg_lookup(all.subrange(1, i as int), key@),
        decreases i,
    {
        let ghost part = all.subrange(1, i as int);
        assert(part.drop_last() =~= all.subrange(1, i - 1));
        assert(part.last() == args@[i - 1]@);
        let cs = to_chars(args[i - 1].as_str());
        assert(cs@.subrange(0, cs@.len() as int) =~= cs@);
        match find_in(&cs, 0, cs.len(), '=') {
            Some(e) => {
                assert(cs@.take(e as int) =~= cs@.subrange(0, e as int));
                if range_eq(&cs, 0, e, &kc) {
                    assert(cs@.skip(e + 1) =~= cs@.subrange(e + 1, cs@.len() as int));
                    return Some(string_from(&cs, e + 1, cs.len()));
                }
            },
            None => {},
        }
        i = i - 1;
    }
    assert(all.subrange(1, 1) =~= Seq::<Seq<char>>::empty());
    None
}

/// Reads a number of seconds given as `key=..`, or takes `default`.
fn seconds(args: &Vec<String>, key: &str, default: u64) -> (r: Option<u64>)
    ensures
        r == seconds_arg(args_view(args@), key@, default),
{
    match find_arg(args, key) {
        Some(v) => {
            let cs = to_chars(v.as_str());
            assert(cs@.subrange(0, cs@.len() as int) =~= cs@);
            parse_u64_chars(&cs, 0, cs.len())
        },
        None => Some(default),
    }
}

impl Config {
    /// The feed file named by the last `--path=..` argument of the command
    /// line `args` (program name first), if any.
    pub fn path_arg(args: &Vec<String>) -> (r: Option<String>)
        ensures
            match r {
                Some(p) => arg_value(args_view(args@), "--path"@) == Some(p@),
                None => arg_value(args_view(args@), "--path"@) is None,
            },
    {
        find_arg(args, "--path")
    }

    /// What is wrong with the command line `args` (program name first), if anything.
    pub fn check_args(args: &Vec<String>) -> (r: std::result::Result<(), ArgError>)
        ensures
            match r {
                Ok(()) => args_error(args_view(args@)) is None,
                Err(e) => args_error(args_view(args@)) == Some(e),
            },
    {
        if find_arg(args, "--path").is_none() {
            return Err(ArgError::MissingPath);
        }
        if seconds(args, "--toast", 0).is_none() {
            return Err(ArgError::BadToast);
        }
        if seconds(args, "--interval", 0).is_none() {
            return Err(ArgError::BadInterval);
        }
        Ok(())
    }

    /// The settings that the command line `args` (program name first) gives:
    /// `--path=..` names the feed file, `--toast=..` and `--interval=..`
    /// override the given numbers of seconds. When an argument appears more
    /// than once, the last one counts.
    pub fn new(args: &Vec<String>, cycle_interval: u64, toast_duration: u64) -> (c: Config)
        requires
            args_error(args_view(args@)) is None,
        ensures
            Some(c.file_path@) == arg_value(args_view(args@), "--path"@),
            Some(c.toast_duration) == seconds_arg(args_view(args@), "--toast"@, toast_duration),
            Some(c.cycle_interval) == seconds_arg(args_view(args@), "--interval"@, cycle_interval),
    {
        let path = match find_arg(args, "--path") {
            Some(p) => p,
            None => String::new(),
        };
        let toast = match seconds(args, "--toast", toast_duration) {
            Some(t) => t,
            None => toast_duration,
        };
        let interval = match seconds(args, "--interval", cycle_interval) {
            Some(t) => t,
            None => cycle_interval,
        };
        Config { file_path: path, toast_duration: toast, cycle_interval: interval }
    }

    /// Whether `contents`, once trimmed, is a readable feed list.
    pub fn can_parse_feeds(&self, contents: &str) -> (b: bool)
        ensures
            b == crate::feeds::feeds_of(trim(contents@)) is Some,
    {
        let t = trimmed(contents);
        crate::feeds::feeds_text_ok(t)
    }

    /// The feeds listed in `contents`, the text of the feed file, trimmed.
    pub fn parse_feeds(&self, contents: &str) -> (feeds: Vec<Feed>)
        requires
            crate::feeds::feeds_of(trim(contents@)) is Some,
        ensures
            crate::feeds::feeds_of(trim(contents@)) == Some(crate::feeds::feeds_view(feeds@)),
    {
        let t = trimmed(contents);
        crate::feeds::parse_feeds_var(t)
    }
}

/// `s` without leading and trailing whitespace.
pub fn trimmed(s: &str) -> (t: &str)
    ensures
        t@ == trim(s@),
{
    let cs = to_chars(s);
    let (a, b) = trim_bounds(&cs, 0, cs.len());
    assert(cs@.subrange(0, cs@.len() as int) =~= s@);
    s.substring_char(a, b)
}

// ----------------------------------------------------------------------------------
//   - Value -
// ----------------------------------------------------------------------------------

/// The value of a feed option.
#[derive(Debug, PartialEq, Eq)]
pub enum Value {
    Int(i32),
    Bool(bool),
    String(String),
}

/// A feed option's value as plain data.
pub enum ValueView {
    Int(i32),
    Bool(bool),
    Text(Seq<char>),
}

impl View for Value {
    type V = ValueView;

    open spec fn view(&self) -> ValueView {
        match self {
            Value::Int(i) => ValueView::Int(*i),
            Value::Bool(b) => ValueView::Bool(*b),
            Value::String(s) => ValueView::Text(s@),
        }
    }
}

/// The value that a text stands for: a boolean if it reads as one, else an
/// `i32` if it reads as one, else the text itself.
pub open spec fn value_of(s: Seq<char>) -> ValueView {
    match parse_bool(s) {
        Some(b) => ValueView::Bool(b),
        None => match parse_i32(s) {
            Some(n) => ValueView::Int(n),
            None => ValueView::Text(s),
        },
    }
}

/// How a value is written out.
pub open spec fn value_text(v: ValueView) -> Seq<char> {
    match v {
        ValueView::Int(i) => decimal(i as int),
        ValueView::Bool(b) => bool_text(b),
        ValueView::Text(s) => s,
    }
}

impl Clone for Value {
    fn clone(&self) -> (r: Self)
        ensures
            r == *self,
    {
        match self {
            Value::Int(i) => Value::Int(*i),
            Value::Bool(b) => Value::Bool(*b),
            Value::String(s) => Value::String(s.clone()),
        }
    }
}

impl Value {
    /// The value that `cs[from..to]` stands for.
    pub fn from_chars(cs: &Vec<char>, from: usize, to: usize) -> (v: Value)
        requires
            from <= to <= cs@.len(),
        ensures
            v@ == value_of(cs@.subrange(from as int, to as int)),
    {
        if let Some(b) = parse_bool_chars(cs, from, to) {
            return Value::Bool(b);
        }
        if let Some(n) = parse_i32_chars(cs, from, to) {
            return Value::Int(n);
        }
        Value::String(string_from(cs, from, to))
    }

    /// The value that `s` stands for (`From<&str>`).
    pub fn from_text(s: &str) -> (v: Value)
        ensures
            v@ == value_of(s@),
    {
        let cs = to_chars(s);
        assert(cs@.subrange(0, cs@.len() as int) =~= s@);
        Value::from_chars(&cs, 0, cs.len())
    }

    /// Reads an option value: an empty text is refused (`FromStr`).
    pub fn parse(s: &str) -> (r: std::result::Result<Value, String>)
        ensures
            match r {
                Ok(v) => s@.len() > 0 && v@ == value_of(s@),
                Err(e) => s@.len() == 0 && e@ == "empty value"@,
            },
    {
        if s.is_empty() {
            let mut e = String::new();
            push_str(&mut e, "empty value");
            assert(e@ =~= "empty value"@);
            Err(e)
        } else {
            Ok(Value::from_text(s))
        }
    }

    /// The value written out (`Display`).
    pub fn to_text(&self) -> (s: String)
        ensures
            s@ == value_text(self@),
    {
        match self {
            Value::Int(i) => {
                let s = i64_to_string(*i as i64);
                assert(s@ == decimal(*i as int));
                assert(self@ == ValueView::Int(*i));
                assert(value_text(self@) == decimal(*i as int));
                s
            },
            Value::Bool(b) => {
                let mut s = String::new();
                if *b {
                    push_str(&mut s, "true");
                    proof { reveal_strlit("true"); }
                } else {
                    push_str(&mut s, "false");
                    proof { reveal_strlit("false"); }
                }
                assert(s@ =~= bool_text(*b));
                s
            },
            Value::String(s) => s.clone(),
        }
    }
}

// ----------------------------------------------------------------------------------
//   - Options -
// ----------------------------------------------------------------------------------

/// An option list as plain data.
pub type OptionsView = Seq<(Seq<char>, ValueView)>;

pub open spec fn options_view(o: Seq<(String, Value)>) -> OptionsView {
    o.map_values(|e: (String, Value)| (e.0@, e.1@))
}

/// The value stored under `key`: the last entry with that key.
pub open spec fn lookup(o: OptionsView, key: Seq<char>) -> Option<ValueView>
    decreases o.len(),
{
    if o.len() == 0 {
        None
    } else if o.last().0 == key {
        Some(o.last().1)
    } else {
        lookup(o.drop_last(), key)
    }
}

/// The entries of `o` whose key is not `key`, in order.
pub open spec fn without_key(o: OptionsView, key: Seq<char>) -> OptionsView
    decreases o.len(),
{
    if o.len() == 0 {
        o
    } else if o.last().0 == key {
        without_key(o.drop_last(), key)
    } else {
        without_key(o.drop_last(), key).push(o.last())
    }
}

/// `o` with `key` set to `v` (`HashMap::insert`).
pub open spec fn insert_option(o: OptionsView, key: Seq<char>, v: ValueView) -> OptionsView {
    without_key(o, key).push((key, v))
}

proof fn lemma_without_key_lookup(o: OptionsView, k: Seq<char>, k2: Seq<char>)
    requires
        k2 != k,
    ensures
        lookup(without_key(o, k), k2) == lookup(o, k2),
    decreases o.len(),
{
    if o.len() > 0 {
        lemma_without_key_lookup(o.drop_last(), k, k2);
        if o.last().0 != k {
            assert(without_key(o, k).drop_last() =~= without_key(o.drop_last(), k));
        }
    }
}

/// Setting an option makes it read back as set and leaves the others as
/// they were (`HashMap::insert` then `HashMap::get`).
pub proof fn lemma_insert_lookup(o: OptionsView, k: Seq<char>, v: ValueView, k2: Seq<char>)
    ensures
        lookup(insert_option(o, k, v), k) == Some(v),
        k2 != k ==> lookup(insert_option(o, k, v), k2) == lookup(o, k2),
{
    let w = without_key(o, k);
    assert(insert_option(o, k, v).drop_last() =~= w);
    if k2 != k {
        lemma_without_key_lookup(o, k, k2);
    }
}

pub open spec fn foreground_key() -> Seq<char> {
    "foreground"@
}

pub open spec fn background_key() -> Seq<char> {
    "background"@
}

pub open spec fn no_toast_key() -> Seq<char> {
    "no_toast"@
}

/// The option names that a feed line may set.
pub open spec fn allowed_key(k: Seq<char>) -> bool {
    k == foreground_key() || k == background_key() || k == no_toast_key()
}

/// One `key=value` word of an options header applied to the options read so far.
pub open spec fn option_step(o: OptionsView, word: Seq<char>) -> OptionsView {
    match split_once(word, '=') {
        Some((k, v)) => if allowed_key(k) && v.len() > 0 {
            insert_option(o, k, value_of(v))
        } else {
            o
        },
        None => o,
    }
}

/// The words of an options header applied in order.
pub open spec fn apply_words(o: OptionsView, words: Seq<Seq<char>>) -> OptionsView
    decreases words.len(),
{
    if words.len() == 0 {
        o
    } else {
        apply_words(option_step(o, words[0]), words.drop_first())
    }
}

/// A copy of an option list.
pub fn clone_options(o: &Vec<(String, Value)>) -> (r: Vec<(String, Value)>)
    ensures
        options_view(r@) == options_view(o@),
{
    let mut r: Vec<(String, Value)> = Vec::new();
    let mut i: usize = 0;
    while i < o.len()
        invariant
            i <= o@.len(),
            options_view(r@) == options_view(o@.take(i as int)),
        decreases o@.len() - i,
    {
        let e = &o[i];
        let k = e.0.clone();
        let v = e.1.clone();
        assert(k@ == e.0@);
        assert(v@ == e.1@);
        let ghost old_r = r@;
        r.push((k, v));
        assert(r@ == old_r.push((k, v)));
        assert(options_view(r@).last() == (e.0@, e.1@));
        assert(options_view(r@).drop_last() =~= options_view(old_r));
        assert(o@[i as int] == *e);
        assert(options_view(o@.take(i + 1)).drop_last() =~= options_view(o@.take(i as int)));
        assert(options_view(o@.take(i + 1)).last() == (e.0@, e.1@));
        let ghost a = options_view(r@);
        let ghost b = options_view(o@.take(i + 1));
        assert(a.len() == b.len());
        assert forall|j: int| 0 <= j < a.len() implies a[j] == b[j] by {
            if j < i {
                assert(a[j] == a.drop_last()[j]);
                assert(b[j] == b.drop_last()[j]);
            }
        }
        assert(a =~= b);
        i = i + 1;
    }
    assert(o@.take(o@.len() as int) =~= o@);
    r
}

/// The option stored under `key`, if any.
pub fn get_option<'a>(o: &'a Vec<(String, Value)>, key: &Vec<char>) -> (r: Option<&'a Value>)
    ensures
        match r {
            Some(v) => lookup(options_view(o@), key@) == Some(v@),
            None => lookup(options_view(o@), key@) is None,
        },
{
    let mut i: usize = o.len();
    assert(o@.take(o@.len() as int) =~= o@);
    while i > 0
        invariant
            i <= o@.len(),
            lookup(options_view(o@), key@) == lookup(options_view(o@.take(i as int)), key@),
        decreases i,
    {
        let e = &o[i - 1];
        let kc = to_chars(e.0.as_str());
        let ghost ov = options_view(o@.take(i as int));
        assert(ov.drop_last() =~= options_view(o@.take(i - 1)));
        assert(ov.last() == (e.0@, e.1@));
        if range_eq(&kc, 0, kc.len(), key) {
            assert(kc@.subrange(0, kc@.len() as int) =~= kc@);
            return Some(&e.1);
        }
        assert(kc@.subrange(0, kc@.len() as int) =~= kc@);
        i = i - 1;
    }
    None
}

/// `o` with `key` set to `v`.
pub fn set_option(o: &mut Vec<(String, Value)>, key: String, v: Value)
    ensures
        options_view(final(o)@) == insert_option(options_view(old(o)@), key@, v@),
{
    let kc = to_chars(key.as_str());
    let mut r: Vec<(String, Value)> = Vec::new();
    let mut i: usize = 0;
    while i < o.len()
        invariant
            i <= o@.len(),
            kc@ == key@,
            options_view(r@) == without_key(options_view(o@.take(i as int)), key@),
        decreases o@.len() - i,
    {
        let e = &o[i];
        let ec = to_chars(e.0.as_str());
        let ghost ov = options_view(o@.take(i + 1));
        assert(ov.drop_last() =~= options_view(o@.take(i as int)));
        assert(ov.last() == (e.0@, e.1@));
        assert(ec@.subrange(0, ec@.len() as int) =~= ec@);
        if !range_eq(&ec, 0, ec.len(), &kc) {
            r.push((e.0.clone(), e.1.clone()));
            assert(options_view(r@) =~= without_key(ov, key@));
        }
        i = i + 1;
    }
    assert(o@.take(o@.len() as int) =~= o@);
    r.push((key, v));
    assert(options_view(r@) =~= insert_option(options_view(old(o)@), key@, v@));
    *o = r;
}

// ----------------------------------------------------------------------------------
//   - Feed -
// ----------------------------------------------------------------------------------

/// A feed to watch and how to show its items.
#[derive(Debug)]
pub struct Feed {
    pub url: String,
    pub options: Vec<(String, Value)>,
}

/// A feed as plain data.
pub struct FeedView {
    pub url: Seq<char>,
    pub options: OptionsView,
}

impl View for Feed {
    type V = FeedView;

    open spec fn view(&self) -> FeedView {
        FeedView { url: self.url@, options: options_view(self.options@) }
    }
}

impl Clone for Feed {
    fn clone(&self) -> (r: Self)
        ensures
            r@ == self@,
    {
        Feed { url: self.url.clone(), options: clone_options(&self.options) }
    }
}

pub open spec fn esc() -> char {
    '\x1b'
}

/// The escape sequence that selects colour `color` for the SGR attribute `attr`.
pub open spec fn color_escape(attr: Seq<char>, color: ValueView) -> Seq<char> {
    seq![esc(), '['] + attr + seq![';', '5', ';'] + value_text(color) + seq!['m']
}

/// The escape sequences for the colours that the options select: foreground
/// first, then background.
pub open spec fn color_prefix(o: OptionsView) -> Seq<char> {
    (match lookup(o, foreground_key()) {
        Some(c) => color_escape(seq!['3', '8'], c),
        None => Seq::empty(),
    }) + (match lookup(o, background_key()) {
        Some(c) => color_escape(seq!['4', '8'], c),
        None => Seq::empty(),
    })
}

/// `text` between the colour escapes that the options select and a reset,
/// or `text` alone when they select none.
pub open spec fn color_wrap(o: OptionsView, text: Seq<char>) -> Seq<char> {
    let p = color_prefix(o);
    if p.len() == 0 {
        text
    } else {
        p + text + seq![esc(), '[', 'm']
    }
}

/// Whether the options ask for no toast: `no_toast` holds `true`.
pub open spec fn no_toast_set(o: OptionsView) -> bool {
    lookup(o, no_toast_key()) == Some(ValueView::Bool(true))
}

/// Without colour options, wrapping gives the text back unchanged.
pub proof fn lemma_wrap_plain(o: OptionsView, text: Seq<char>)
    requires
        lookup(o, foreground_key()) is None,
        lookup(o, background_key()) is None,
    ensures
        color_wrap(o, text) == text,
{
    assert(color_prefix(o) =~= Seq::<char>::empty());
}

/// What wrapping in colours writes, case by case: with neither colour set
/// the text alone; a foreground colour `f` writes `ESC[38;5;fm` before the
/// text, a background colour `b` writes `ESC[48;5;bm` (after the foreground
/// escape when both are set), and whichever colour is set, the reset `ESC[m`
/// follows the text.
pub proof fn lemma_wrap_color_cases(o: OptionsView, text: Seq<char>)
    ensures
        ({
            let fg = lookup(o, foreground_key());
            let bg = lookup(o, background_key());
            let reset = "\x1b[m"@;
            &&& fg is None && bg is None ==> color_wrap(o, text) == text
            &&& fg is Some && bg is None ==> color_wrap(o, text) == "\x1b[38;5;"@ + value_text(fg.unwrap())
                + "m"@ + text + reset
            &&& fg is None && bg is Some ==> color_wrap(o, text) == "\x1b[48;5;"@ + value_text(bg.unwrap())
                + "m"@ + text + reset
            &&& fg is Some && bg is Some ==> color_wrap(o, text) == "\x1b[38;5;"@ + value_text(fg.unwrap())
                + "m"@ + "\x1b[48;5;"@ + value_text(bg.unwrap()) + "m"@ + text + reset
        }),
{
    reveal_strlit("\x1b[38;5;");
    reveal_strlit("\x1b[48;5;");
    reveal_strlit("m");
    reveal_strlit("\x1b[m");
    let p = color_prefix(o);
    match (lookup(o, foreground_key()), lookup(o, background_key())) {
        (None, None) => {
            assert(p =~= Seq::<char>::empty());
        },
        (Some(f), None) => {
            assert(p =~= "\x1b[38;5;"@ + value_text(f) + "m"@);
        },
        (None, Some(b)) => {
            assert(p =~= "\x1b[48;5;"@ + value_text(b) + "m"@);
        },
        (Some(f), Some(b)) => {
            assert(p =~= "\x1b[38;5;"@ + value_text(f) + "m"@ + "\x1b[48;5;"@ + value_text(b) + "m"@);
        },
    }
}

/// Whenever a colour option is set, foreground or background alone or both,
/// the wrapped text is the colour escapes, the text, and the reset `ESC[m`,
/// so no colour leaks into what is written after it.
pub proof fn lemma_wrap_color_resets(o: OptionsView, text: Seq<char>)
    requires
        lookup(o, foreground_key()) is Some || lookup(o, background_key()) is Some,
    ensures
        color_wrap(o, text) == color_prefix(o) + text + "\x1b[m"@,
        color_wrap(o, text).len() == color_prefix(o).len() + text.len() + 3,
        color_prefix(o).len() > 0,
{
    reveal_strlit("\x1b[m");
    let p = color_prefix(o);
    match lookup(o, foreground_key()) {
        Some(f) => {
            assert(p.len() >= color_escape(seq!['3', '8'], f).len());
        },
        None => {},
    }
}

/// Whether a feed is kept from toasts depends on the value stored under
/// `no_toast` alone: setting `no_toast` makes it hold exactly when the new
/// value is `true`, whatever was set before, and setting any other option
/// leaves it as it was.
pub proof fn lemma_no_toast_insert(o: OptionsView, k: Seq<char>, v: ValueView)
    ensures
        k == no_toast_key() ==> (no_toast_set(insert_option(o, k, v)) <==> v == ValueView::Bool(true)),
        k != no_toast_key() ==> no_toast_set(insert_option(o, k, v)) == no_toast_set(o),
{
    lemma_insert_lookup(o, k, v, no_toast_key());
}

/// Whether a header word sets the option `no_toast`.
pub open spec fn sets_no_toast(word: Seq<char>) -> bool {
    split_once(word, '=') matches Some((k, v)) && k == no_toast_key() && v.len() > 0
}

/// The word `no_toast=true` in a header makes the feed's items be logged
/// only, wherever it stands among the header's words, as long as no later
/// word sets `no_toast` again; words that set other options, before it or
/// after it, change nothing.
pub proof fn lemma_no_toast_header(o: OptionsView, words: Seq<Seq<char>>, i: int)
    requires
        0 <= i < words.len(),
        words[i] == "no_toast=true"@,
        forall|j: int| i < j < words.len() ==> !sets_no_toast(#[trigger] words[j]),
    ensures
        no_toast_set(apply_words(o, words)),
    decreases words.len(),
{
    if i == 0 {
        reveal_strlit("no_toast=true");
        reveal_strlit("no_toast");
        let w = words[0];
        assert(crate::text::is_first(w, '=', 8));
        crate::text::lemma_find_some(w, '=', 8);
        assert(w.take(8) =~= no_toast_key());
        assert(w.skip(9) =~= crate::number::true_text());
        let o1 = option_step(o, w);
        lemma_no_toast_insert(o, no_toast_key(), ValueView::Bool(true));
        assert(no_toast_set(o1));
        lemma_no_toast_kept(o1, words.drop_first());
    } else {
        let o1 = option_step(o, words[0]);
        assert forall|j: int| i - 1 < j < words.drop_first().len() implies !sets_no_toast(
            #[trigger] words.drop_first()[j],
        ) by {
            assert(words.drop_first()[j] == words[j + 1]);
        }
        lemma_no_toast_header(o1, words.drop_first(), i - 1);
    }
}

/// Words that do not set `no_toast` leave it as it was.
proof fn lemma_no_toast_kept(o: OptionsView, words: Seq<Seq<char>>)
    requires
        forall|j: int| 0 <= j < words.len() ==> !sets_no_toast(#[trigger] words[j]),
    ensures
        no_toast_set(apply_words(o, words)) == no_toast_set(o),
    decreases words.len(),
{
    if words.len() > 0 {
        let w = words[0];
        assert(!sets_no_toast(w));
        match split_once(w, '=') {
            Some((k, v)) => {
                if allowed_key(k) && v.len() > 0 {
                    lemma_no_toast_insert(o, k, value_of(v));
                }
            },
            None => {},
        }
        assert forall|j: int| 0 <= j < words.drop_first().len() implies !sets_no_toast(
            #[trigger] words.drop_first()[j],
        ) by {
            assert(words.drop_first()[j] == words[j + 1]);
        }
        lemma_no_toast_kept(option_step(o, w), words.drop_first());
    }
}

/// A number or a boolean written out reads back as itself, and so does a
/// text that reads as neither.
pub proof fn lemma_value_round_trip(v: ValueView)
    requires
        v matches ValueView::Text(s) ==> parse_bool(s) is None && parse_i32(s) is None,
    ensures
        value_of(value_text(v)) == v,
{
    match v {
        ValueView::Int(i) => {
            crate::number::lemma_parse_decimal(i as int);
            let d = decimal(i as int);
            if d == crate::number::true_text() || d == crate::number::false_text() {
                assert(d[0] == 't' || d[0] == 'f');
                assert(crate::number::parse_int(d, true) is None);
            }
        },
        ValueView::Bool(b) => {},
        ValueView::Text(s) => {},
    }
}

fn push_color(res: &mut String, attr: &str, color: &Value)
    ensures
        final(res)@ == old(res)@ + color_escape(attr@, color@),
{
    push_char(res, '\x1b');
    push_char(res, '[');
    push_str(res, attr);
    push_char(res, ';');
    push_char(res, '5');
    push_char(res, ';');
    let c = color.to_text();
    push_str(res, c.as_str());
    push_char(res, 'm');
    assert(final(res)@ =~= old(res)@ + color_escape(attr@, color@));
}

impl Feed {
    /// Puts `text` between the ANSI colour escapes that the feed's options select.
    pub fn wrap_color(&self, text: &str) -> (r: Result<String>)
        ensures
            r matches Ok(s) && s@ == color_wrap(self@.options, text@),
    {
        let mut res = String::new();
        let fg = to_chars("foreground");
        let bg = to_chars("background");
        if let Some(color) = get_option(&self.options, &fg) {
            let attr = "38";
            proof { reveal_strlit("38"); }
            push_color(&mut res, attr, color);
        }
        if let Some(color) = get_option(&self.options, &bg) {
            let attr = "48";
            proof { reveal_strlit("48"); }
            push_color(&mut res, attr, color);
        }
        let with_escape = !res.as_str().is_empty();
        assert(res@ =~= color_prefix(self@.options));
        push_str(&mut res, text);
        if with_escape {
            push_char(&mut res, '\x1b');
            push_char(&mut res, '[');
            push_char(&mut res, 'm');
        }
        assert(res@ =~= color_wrap(self@.options, text@));
        Ok(res)
    }

    /// Whether the feed's items are only logged, never shown as toasts.
    pub fn no_toast(&self) -> (b: bool)
        ensures
            b == no_toast_set(self@.options),
    {
        let key = to_chars("no_toast");
        match get_option(&self.options, &key) {
            Some(Value::Bool(b)) => *b,
            _ => false,
        }
    }
}

} // verus!
