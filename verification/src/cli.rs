//! The command-line vocabulary: the arguments the program understands,
//! their names, and their help texts. The argument parser itself is I/O
//! glue and lives with the program; this module owns the wording.

use vstd::prelude::*;
use vstd::string::StringExecFns;

verus! {

/// One command-line argument of the program.
#[derive(Clone, Copy)]
pub enum Argument {
    Dir,
    Target,
    Name,
    Basic,
    NoBrowser,
    Help,
}

/// The name under which an argument is given on the command line.
pub open spec fn name_of(a: Argument) -> Seq<char> {
    match a {
        Argument::Dir => "dir"@,
        Argument::Target => "target"@,
        Argument::Name => "name"@,
        Argument::Basic => "basic"@,
        Argument::NoBrowser => "no-browser"@,
        Argument::Help => "help"@,
    }
}

/// The help text of an argument; empty for the help argument itself.
pub open spec fn help_of(a: Argument) -> Seq<char> {
    match a {
        Argument::Dir => "--dir
    1 argument, the path (relative or absolute) to the root directory.
    The path can contain whitespaces, no need to surround it with quatation marks.

    Every top level directory inside the root directory, is considered a project.
"@,
        Argument::Target => "--target
    1 argument, the path (relative or absolute) to the directory that the generated file will be saved.
    The path can contain whitespaces, no need to surround it with quatation marks.

"@,
        Argument::Name => "--name
    1 argument, the name of the generated file.
    The name can contain whitespaces.

"@,
        Argument::Basic => "--basic
    No arguments.
    Skips the parsing of special css files, that may not exist if the project is used for generic use.

"@,
        Argument::NoBrowser => "--no-browser
    No arguments.
    Doesn't try to open the geneated html in the browser.

"@,
        Argument::Help => ""@,
    }
}

/// The opening paragraph of the whole help message.
pub open spec fn help_intro() -> Seq<char> {
    "Running the program without arguments will try to find the common default installation paths for xampp/htdocs
and consider this path as root.\n\n"@
}

impl Argument {
    /// The name under which this argument is given on the command line.
    pub fn get_name(&self) -> (r: &str)
        ensures
            r@ == name_of(*self),
    {
        match self {
            Argument::Dir => "dir",
            Argument::Target => "target",
            Argument::Name => "name",
            Argument::Basic => "basic",
            Argument::NoBrowser => "no-browser",
            Argument::Help => "help",
        }
    }

    /// The help text of this argument. The odd formatting of the literals
    /// keeps the printed indentation.
    pub fn get_help_msg(&self) -> (r: &str)
        ensures
            r@ == help_of(*self),
    {
        match self {
            Argument::Dir => "--dir
    1 argument, the path (relative or absolute) to the root directory.
    The path can contain whitespaces, no need to surround it with quatation marks.

    Every top level directory inside the root directory, is considered a project.
",
            Argument::Target => "--target
    1 argument, the path (relative or absolute) to the directory that the generated file will be saved.
    The path can contain whitespaces, no need to surround it with quatation marks.

",
            Argument::Name => "--name
    1 argument, the name of the generated file.
    The name can contain whitespaces.

",
            Argument::Basic => "--basic
    No arguments.
    Skips the parsing of special css files, that may not exist if the project is used for generic use.

",
            Argument::NoBrowser => "--no-browser
    No arguments.
    Doesn't try to open the geneated html in the browser.

",
            Argument::Help => "",
        }
    }
}

/// The whole help message: the intro, then the help of every argument
/// that takes part in a run, in their canonical order.
pub fn whole_help_message() -> (r: String)
    ensures
        r@ == help_intro() + help_of(Argument::Dir) + help_of(Argument::Target) + help_of(
            Argument::Name,
        ) + help_of(Argument::Basic) + help_of(Argument::NoBrowser),
{
    let mut msg = String::from_str(
        "Running the program without arguments will try to find the common default installation paths for xampp/htdocs
and consider this path as root.\n\n",
    );
    msg.append(Argument::Dir.get_help_msg());
    msg.append(Argument::Target.get_help_msg());
    msg.append(Argument::Name.get_help_msg());
    msg.append(Argument::Basic.get_help_msg());
    msg.append(Argument::NoBrowser.get_help_msg());
    msg
}

/// A white-space character: the code points with Unicode's `White_Space`
/// property, the set `str::trim` removes.
pub open spec fn is_space_char(c: char) -> bool {
    let u = c as u32;
    (9 <= u && u <= 13) || u == 32 || u == 0x85 || u == 0xA0 || u == 0x1680 || (0x2000 <= u && u
        <= 0x200A) || u == 0x2028 || u == 0x2029 || u == 0x202F || u == 0x205F || u == 0x3000
}

/// `s` with leading white space removed.
pub open spec fn trim_front_chars(s: Seq<char>) -> Seq<char>
    decreases s.len(),
{
    if s.len() > 0 && is_space_char(s[0]) {
        trim_front_chars(s.skip(1))
    } else {
        s
    }
}

/// `s` with trailing white space removed.
pub open spec fn trim_back_chars(s: Seq<char>) -> Seq<char>
    decreases s.len(),
{
    if s.len() > 0 && is_space_char(s[s.len() - 1]) {
        trim_back_chars(s.take(s.len() - 1))
    } else {
        s
    }
}

/// `s` with surrounding white space removed.
pub open spec fn trimmed_chars(s: Seq<char>) -> Seq<char> {
    trim_back_chars(trim_front_chars(s))
}

/// A white-space test on one character.
fn is_space_char_exec(c: char) -> (r: bool)
    ensures
        r == is_space_char(c),
{
    let u = c as u32;
    (9 <= u && u <= 13) || u == 32 || u == 0x85 || u == 0xA0 || u == 0x1680 || (0x2000 <= u && u
        <= 0x200A) || u == 0x2028 || u == 0x2029 || u == 0x202F || u == 0x205F || u == 0x3000
}

/// The given text with surrounding whitespace removed, or nothing when
/// only whitespace (or nothing) is left.
pub fn get_trimmed_if_not_empty(s: &str) -> (r: Option<String>)
    ensures
        match r {
            Some(t) => trimmed_chars(s@).len() > 0 && t@ == trimmed_chars(s@),
            None => trimmed_chars(s@).len() == 0,
        },
{
    let n = s.unicode_len();
    let mut a: usize = 0;
    assert(s@.skip(0) =~= s@);
    while a < n && is_space_char_exec(s.get_char(a))
        invariant
            0 <= a <= n,
            n == s@.len(),
            trim_front_chars(s@) == trim_front_chars(s@.skip(a as int)),
        decreases n - a,
    {
        assert(s@.skip(a as int)[0] == s@[a as int]);
        assert(s@.skip(a as int).skip(1) =~= s@.skip(a + 1));
        a = a + 1;
    }
    assert(trim_front_chars(s@) == s@.skip(a as int)) by {
        if a < n {
            assert(s@.skip(a as int)[0] == s@[a as int]);
        } else {
            assert(s@.skip(a as int).len() == 0);
        }
    }
    let mut b: usize = n;
    while b > a && is_space_char_exec(s.get_char(b - 1))
        invariant
            0 <= a <= b <= n,
            n == s@.len(),
            trim_front_chars(s@) == s@.skip(a as int),
            trim_back_chars(s@.skip(a as int)) == trim_back_chars(s@.subrange(a as int, b as int)),
        decreases b,
    {
        assert(s@.subrange(a as int, b as int).take(b - a - 1) =~= s@.subrange(a as int, b - 1));
        assert(s@.subrange(a as int, b as int)[b - a - 1] == s@[b - 1]);
        b = b - 1;
    }
    assert(trim_back_chars(s@.subrange(a as int, b as int)) == s@.subrange(a as int, b as int)) by {
        if b > a {
            assert(s@.subrange(a as int, b as int)[b - a - 1] == s@[b - 1]);
        } else {
            assert(s@.subrange(a as int, b as int).len() == 0);
        }
    }
    if a == b {
        None
    } else {
        let t = s.substring_char(a, b);
        Some(t.to_owned())
    }
}

} // verus!
