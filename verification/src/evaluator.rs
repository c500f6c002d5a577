//! The decisions of the command evaluator: which builtins exist, what they
//! print, where `cd` goes and which redirections apply to a descriptor.
//! Running programs, opening files and changing directory is left to the
//! caller.
use vstd::prelude::*;
use crate::ast::Redirection;
use crate::text::{chars_of, extend_chars, join_seqs, push_str_chars, str_eq, string_from_chars};
use crate::tokenizer::strings_view;

verus! {

/// The builtin commands.
#[derive(Debug, Clone, Copy, PartialEq, Eq, Structural)]
pub enum Builtin {
    Exit,
    Echo,
    Type,
    Pwd,
    Cd,
}

/// The builtins and their names, in the order in which they are listed.
pub open spec fn builtin_table() -> Seq<(Seq<char>, Builtin)> {
    seq![
        ("exit"@, Builtin::Exit),
        ("echo"@, Builtin::Echo),
        ("type"@, Builtin::Type),
        ("pwd"@, Builtin::Pwd),
        ("cd"@, Builtin::Cd),
    ]
}

/// The builtin with a given name.
pub open spec fn builtin_named(name: Seq<char>) -> Option<Builtin> {
    if name == "exit"@ {
        Some(Builtin::Exit)
    } else if name == "echo"@ {
        Some(Builtin::Echo)
    } else if name == "type"@ {
        Some(Builtin::Type)
    } else if name == "pwd"@ {
        Some(Builtin::Pwd)
    } else if name == "cd"@ {
        Some(Builtin::Cd)
    } else {
        None
    }
}

/// The names that the evaluator lists are exactly the names of its
/// builtins: a name finds a builtin if and only if it is listed.
pub proof fn law_builtin_names_are_builtins(name: Seq<char>)
    ensures
        builtin_named(name) is Some <==> builtin_table().map_values(|b: (Seq<char>, Builtin)| b.0).contains(
            name,
        ),
{
    let names = builtin_table().map_values(|b: (Seq<char>, Builtin)| b.0);
    assert(names =~= seq!["exit"@, "echo"@, "type"@, "pwd"@, "cd"@]);
    if builtin_named(name) is Some {
        if name == "exit"@ {
            assert(names[0] == name);
        } else if name == "echo"@ {
            assert(names[1] == name);
        } else if name == "type"@ {
            assert(names[2] == name);
        } else if name == "pwd"@ {
            assert(names[3] == name);
        } else {
            assert(names[4] == name);
        }
    }
}

/// What a builtin writes: to standard output and to standard error.
pub struct Stdio {
    pub out: String,
    pub err: String,
}

/// Where `cd` goes, and the warning it prints first.
pub struct CdPlan {
    pub warning: String,
    pub target: String,
}

/// Runs simple commands: knows the builtins.
pub struct Evaluator {
    names: Vec<&'static str>,
}

/// What `echo` writes: its arguments separated by spaces, and a newline.
pub open spec fn echo_spec(args: Seq<Seq<char>>) -> Seq<char> {
    join_seqs(args, seq![' ']).push('\n')
}

/// What `type` writes for its first argument, given the executable that
/// a search of the path found for it: to standard output, then to
/// standard error.
pub open spec fn type_spec(args: Seq<Seq<char>>, found: Option<Seq<char>>) -> (Seq<char>, Seq<char>) {
    if args.len() == 0 {
        (Seq::empty(), Seq::empty())
    } else if builtin_named(args[0]) is Some {
        (args[0] + " is a shell builtin"@.push('\n'), Seq::empty())
    } else {
        match found {
            Some(p) => (args[0] + " is "@ + p.push('\n'), Seq::empty()),
            None => (Seq::empty(), args[0] + ": not found"@.push('\n')),
        }
    }
}

/// The directory that `cd` goes to: its argument, or the home directory
/// without one; a leading `~` alone or before `/` stands for the home
/// directory.
pub open spec fn cd_target(args: Seq<Seq<char>>, home: Seq<char>) -> Seq<char> {
    let t = if args.len() > 0 {
        args[0]
    } else {
        seq!['~']
    };
    if t == seq!['~'] || (t.len() >= 2 && t[0] == '~' && t[1] == '/') {
        home + t.skip(1)
    } else {
        t
    }
}

impl Evaluator {
    /// The names of the builtins.
    pub closed spec fn names_view(&self) -> Seq<Seq<char>> {
        self.names@.map_values(|s: &str| s@)
    }

    /// An evaluator that knows the builtins `exit`, `echo`, `type`, `pwd`
    /// and `cd`.
    pub fn new() -> (e: Evaluator)
        ensures
            e.names_view() == builtin_table().map_values(|b: (Seq<char>, Builtin)| b.0),
    {
        let mut names: Vec<&'static str> = Vec::new();
        names.push("exit");
        names.push("echo");
        names.push("type");
        names.push("pwd");
        names.push("cd");
        let e = Evaluator { names };
        assert(e.names_view() =~= builtin_table().map_values(|b: (Seq<char>, Builtin)| b.0));
        e
    }

    /// The names of the builtins.
    pub fn builtin_names(&self) -> (r: Vec<&'static str>)
        ensures
            r@.map_values(|s: &str| s@) == self.names_view(),
    {
        let mut r: Vec<&'static str> = Vec::new();
        let mut i: usize = 0;
        while i < self.names.len()
            invariant
                i <= self.names@.len(),
                r@.map_values(|s: &str| s@) == self.names_view().subrange(0, i as int),
            decreases self.names.len() - i,
        {
            let x = self.names[i];
            assert(x@ == self.names_view()[i as int]);
            let ghost before = r@.map_values(|s: &str| s@);
            r.push(x);
            assert(r@.map_values(|s: &str| s@) =~= before.push(x@));
            i = i + 1;
            assert(r@.map_values(|s: &str| s@) =~= self.names_view().subrange(0, i as int));
        }
        assert(self.names_view().subrange(0, self.names@.len() as int) =~= self.names_view());
        r
    }

    /// The builtin with the given name.
    pub fn builtin(&self, name: &str) -> (r: Option<Builtin>)
        ensures
            r == builtin_named(name@),
    {
        proof {
            reveal_strlit("exit");
            reveal_strlit("echo");
            reveal_strlit("type");
            reveal_strlit("pwd");
            reveal_strlit("cd");
        }
        if str_eq(name, "exit") {
            Some(Builtin::Exit)
        } else if str_eq(name, "echo") {
            Some(Builtin::Echo)
        } else if str_eq(name, "type") {
            Some(Builtin::Type)
        } else if str_eq(name, "pwd") {
            Some(Builtin::Pwd)
        } else if str_eq(name, "cd") {
            Some(Builtin::Cd)
        } else {
            None
        }
    }

    /// What `echo` writes to standard output.
    pub fn builtin_echo(&self, args: &[String]) -> (out: String)
        ensures
            out@ == echo_spec(strings_view(args@)),
    {
        let ghost av = strings_view(args@);
        let mut buf: Vec<char> = Vec::new();
        let mut i: usize = 0;
        while i < args.len()
            invariant
                i <= args@.len(),
                av == strings_view(args@),
                buf@ == join_seqs(av.subrange(0, i as int), seq![' ']),
            decreases args.len() - i,
        {
            if i > 0 {
                buf.push(' ');
            }
            push_str_chars(&mut buf, args[i].as_str());
            i = i + 1;
            proof {
                let pre = av.subrange(0, i as int);
                assert(pre.drop_last() =~= av.subrange(0, i - 1));
                assert(pre.last() == args@[i - 1]@);
                if i == 1 {
                    assert(buf@ =~= pre[0]);
                } else {
                    assert(buf@ =~= join_seqs(pre.drop_last(), seq![' ']) + seq![' '] + pre.last());
                }
            }
        }
        assert(av.subrange(0, args@.len() as int) =~= av);
        buf.push('\n');
        string_from_chars(&buf)
    }

    /// What `type` writes, given the path at which a search of the
    /// executable search path found its first argument (the caller
    /// searches only for a name that is not a builtin).
    pub fn builtin_type(&self, args: &[String], found: Option<&str>) -> (o: Stdio)
        ensures
            (o.out@, o.err@) == type_spec(
                strings_view(args@),
                match found {
                    Some(p) => Some(p@),
                    None => None,
                },
            ),
    {
        if args.len() == 0 {
            return Stdio { out: String::new(), err: String::new() };
        }
        let name = args[0].as_str();
        let mut out: Vec<char> = Vec::new();
        let mut err: Vec<char> = Vec::new();
        proof {
            reveal_strlit(" is a shell builtin");
            reveal_strlit(" is ");
            reveal_strlit(": not found");
        }
        if self.builtin(name).is_some() {
            push_str_chars(&mut out, name);
            push_str_chars(&mut out, " is a shell builtin");
            out.push('\n');
        } else {
            match found {
                Some(p) => {
                    push_str_chars(&mut out, name);
                    push_str_chars(&mut out, " is ");
                    push_str_chars(&mut out, p);
                    out.push('\n');
                    assert(out@ =~= args@[0]@ + " is "@ + p@.push('\n'));
                },
                None => {
                    push_str_chars(&mut err, name);
                    push_str_chars(&mut err, ": not found");
                    err.push('\n');
                },
            }
        }
        assert(strings_view(args@)[0] == args@[0]@);
        Stdio { out: string_from_chars(&out), err: string_from_chars(&err) }
    }

    /// Where `cd` goes with the given arguments and home directory, and the
    /// warning it prints when given more than one argument.
    pub fn builtin_cd(&self, args: &[String], home: &str) -> (p: CdPlan)
        ensures
            p.target@ == cd_target(strings_view(args@), home@),
            p.warning@ == (if args@.len() > 1 {
                "Too many args for cd command\n"@
            } else {
                Seq::empty()
            }),
    {
        let mut warning: Vec<char> = Vec::new();
        proof {
            reveal_strlit("Too many args for cd command\n");
        }
        if args.len() > 1 {
            push_str_chars(&mut warning, "Too many args for cd command\n");
        }
        let t: Vec<char> = if args.len() > 0 {
            chars_of(args[0].as_str())
        } else {
            let mut v: Vec<char> = Vec::new();
            v.push('~');
            v
        };
        let ghost tv = if args@.len() > 0 {
            strings_view(args@)[0]
        } else {
            seq!['~']
        };
        assert(t@ =~= tv);
        let expand = (t.len() == 1 && t[0] == '~') || (t.len() >= 2 && t[0] == '~' && t[1] == '/');
        let target: Vec<char> = if expand {
            let mut v = chars_of(home);
            let mut i: usize = 1;
            let ghost h = v@;
            while i < t.len()
                invariant
                    1 <= i <= t@.len(),
                    v@ == h + t@.subrange(1, i as int),
                decreases t.len() - i,
            {
                v.push(t[i]);
                i = i + 1;
                assert(v@ =~= h + t@.subrange(1, i as int));
            }
            assert(t@.subrange(1, t@.len() as int) =~= t@.skip(1));
            v
        } else {
            t
        };
        proof {
            if t@.len() == 1 && t@[0] == '~' {
                assert(t@ =~= seq!['~']);
            }
        }
        CdPlan { warning: string_from_chars(&warning), target: string_from_chars(&target) }
    }
}

/// The positions of the redirections that apply to descriptor `fd`, in the
/// order written: each is opened in turn, and the last one that opens is
/// the one in effect.
pub fn redirections_for(redirs: &[Redirection], fd: u32) -> (r: Vec<usize>)
    ensures
        forall|k: int| 0 <= k < r@.len() ==> (#[trigger] r@[k]) < redirs@.len() && redirs@[r@[k] as int].fd == fd,
        forall|k: int, l: int| 0 <= k < l < r@.len() ==> (#[trigger] r@[k]) < (#[trigger] r@[l]),
        forall|i: int| 0 <= i < redirs@.len() && (#[trigger] redirs@[i]).fd == fd ==> r@.contains(i as usize),
{
    let mut r: Vec<usize> = Vec::new();
    let mut i: usize = 0;
    while i < redirs.len()
        invariant
            i <= redirs@.len(),
            forall|k: int| 0 <= k < r@.len() ==> (#[trigger] r@[k]) < i && redirs@[r@[k] as int].fd == fd,
            forall|k: int, l: int| 0 <= k < l < r@.len() ==> (#[trigger] r@[k]) < (#[trigger] r@[l]),
            forall|j: int| 0 <= j < i && (#[trigger] redirs@[j]).fd == fd ==> r@.contains(j as usize),
        decreases redirs.len() - i,
    {
        if redirs[i].fd == fd {
            let ghost old_r = r@;
            r.push(i);
            assert forall|j: int| 0 <= j < i + 1 && (#[trigger] redirs@[j]).fd == fd implies r@.contains(j as usize) by {
                if j < i {
                    let k = choose|k: int| 0 <= k < old_r.len() && old_r[k] == j as usize;
                    assert(r@[k] == j as usize);
                } else {
                    assert(r@[old_r.len() as int] == j as usize);
                }
            }
        }
        i = i + 1;
    }
    r
}

/// Where `cd` goes: with no argument, to the home directory; an argument
/// `~` or one that starts with `~/` has its `~` replaced by the home
/// directory; any other argument is taken as it is. Only the first argument
/// counts.
pub proof fn law_cd_expands_tilde(args: Seq<Seq<char>>, home: Seq<char>)
    ensures
        args.len() == 0 ==> cd_target(args, home) == home,
        args.len() > 0 && args[0] == seq!['~'] ==> cd_target(args, home) == home,
        args.len() > 0 && args[0].len() >= 2 && args[0][0] == '~' && args[0][1] == '/' ==> cd_target(args, home)
            == home + args[0].subrange(1, args[0].len() as int),
        args.len() > 0 && (args[0].len() == 0 || args[0][0] != '~' || (args[0].len() >= 2 && args[0][1] != '/'))
            ==> cd_target(args, home) == args[0],
{
    assert(seq!['~'].skip(1) =~= Seq::<char>::empty());
    assert(home + Seq::<char>::empty() =~= home);
    if args.len() > 0 {
        assert(args[0].skip(1) =~= args[0].subrange(1, args[0].len() as int));
    }
}

/// `echo` separates its arguments by single spaces and ends with a line
/// feed: with no argument it writes a line feed alone, and each further
/// argument adds a space and the argument before the line feed.
pub proof fn law_echo_joins_with_spaces(args: Seq<Seq<char>>, a: Seq<char>)
    ensures
        echo_spec(Seq::empty()) == seq!['\n'],
        echo_spec(seq![a]) == a.push('\n'),
        args.len() > 0 ==> echo_spec(args.push(a)) == echo_spec(args).drop_last() + seq![' '] + a.push('\n'),
{
    assert(Seq::<char>::empty().push('\n') =~= seq!['\n']);
    assert(seq![a][0] == a);
    if args.len() > 0 {
        let b = args.push(a);
        assert(b.drop_last() =~= args);
        assert(b.last() == a);
        assert(echo_spec(args).drop_last() =~= join_seqs(args, seq![' ']));
        assert(join_seqs(b, seq![' ']).push('\n') =~= join_seqs(args, seq![' ']) + seq![' '] + a.push('\n'));
    }
}

} // verus!
