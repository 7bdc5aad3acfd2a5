//! An arbitrary precision desk calculator in the style of `dc`.
pub mod dcnumber;
pub mod command_laws;
pub mod dcstack;
pub mod decimal;
pub mod instructions;
pub mod laws;
pub mod numtext;
pub mod parse;
pub mod parse_laws;
pub mod text;
pub mod vm;

use vstd::prelude::*;
use vstd::string::StringSliceAdditionalSpecFns;

verus! {

/// Where a program comes from: the text itself, or the name of a file that holds it.
#[derive(Clone, Debug, PartialEq, Eq)]
pub enum ProgramSource {
    Text(Vec<u8>),
    File(Vec<u8>),
}

/// What the command line asks for: running programs in order, or leaving at once with an
/// exit code.
#[derive(Clone, Debug, PartialEq, Eq)]
pub enum Invocation {
    Run(Vec<ProgramSource>),
    Exit(i32),
}

/// A program source, as a value.
pub enum SourceView {
    Text(Seq<u8>),
    File(Seq<u8>),
}

impl View for ProgramSource {
    type V = SourceView;

    open spec fn view(&self) -> SourceView {
        match self {
            ProgramSource::Text(t) => SourceView::Text(t@),
            ProgramSource::File(f) => SourceView::File(f@),
        }
    }
}

/// What the command line asks for, as a value.
pub enum InvocationView {
    Run(Seq<SourceView>),
    Exit(int),
}

/// Reading the arguments from the `i`-th on, after `sources` were asked for: `-e` and
/// `--expression` take the next argument as a program, `-f` and `--file` as the name of a
/// file that holds one; either with nothing after it leaves with code 1; `-h`, `--help`,
/// `-v` and `--version` leave with code 0 at once; any other argument is passed over.
pub open spec fn invocation_from(args: Seq<Seq<u8>>, i: nat, sources: Seq<SourceView>) -> InvocationView
    decreases args.len() - i,
{
    if i >= args.len() {
        InvocationView::Run(sources)
    } else {
        let a = args[i as int];
        if a == "-e".spec_bytes() || a == "--expression".spec_bytes() {
            if i + 1 < args.len() {
                invocation_from(args, i + 2, sources.push(SourceView::Text(args[i as int + 1])))
            } else {
                InvocationView::Exit(1)
            }
        } else if a == "-f".spec_bytes() || a == "--file".spec_bytes() {
            if i + 1 < args.len() {
                invocation_from(args, i + 2, sources.push(SourceView::File(args[i as int + 1])))
            } else {
                InvocationView::Exit(1)
            }
        } else if a == "-h".spec_bytes() || a == "--help".spec_bytes() || a == "-v".spec_bytes()
            || a == "--version".spec_bytes() {
            InvocationView::Exit(0)
        } else {
            invocation_from(args, i + 1, sources)
        }
    }
}

/// The two byte strings are equal.
fn same_bytes(a: &[u8], b: &[u8]) -> (r: bool)
    ensures
        r == (a@ == b@),
{
    if a.len() != b.len() {
        return false;
    }
    let mut i: usize = 0;
    while i < a.len()
        invariant
            a@.len() == b@.len(),
            i <= a@.len(),
            forall|k: int| 0 <= k < i ==> a@[k] == b@[k],
        decreases a@.len() - i,
    {
        if a[i] != b[i] {
            return false;
        }
        i = i + 1;
    }
    assert(a@ =~= b@);
    true
}

/// Copies a byte string.
fn copy_bytes(a: &[u8]) -> (r: Vec<u8>)
    ensures
        r@ == a@,
{
    let mut r: Vec<u8> = Vec::new();
    crate::instructions::append_bytes(&mut r, a);
    assert(r@ =~= a@);
    r
}

/// The command line arguments (without the program's name), read into the programs to run in
/// order, or into the code to leave with.
pub fn dc(args: &[Vec<u8>]) -> (r: Invocation)
    ensures
        match r {
            Invocation::Run(sources) => invocation_from(args@.map_values(|a: Vec<u8>| a@), 0, Seq::empty())
                == InvocationView::Run(sources@.map_values(|s: ProgramSource| s@)),
            Invocation::Exit(code) => invocation_from(args@.map_values(|a: Vec<u8>| a@), 0, Seq::empty())
                == InvocationView::Exit(code as int),
        },
{
    let ghost views = args@.map_values(|a: Vec<u8>| a@);
    let mut program_sources: Vec<ProgramSource> = Vec::new();
    let mut i: usize = 0;
    proof {
        assert(program_sources@.map_values(|s: ProgramSource| s@) =~= Seq::<SourceView>::empty());
    }
    while i < args.len()
        invariant
            views == args@.map_values(|a: Vec<u8>| a@),
            i <= args@.len(),
            invocation_from(views, 0, Seq::empty()) == invocation_from(
                views,
                i as nat,
                program_sources@.map_values(|s: ProgramSource| s@),
            ),
        decreases args@.len() - i,
    {
        let arg = args[i].as_slice();
        let ghost before = program_sources@.map_values(|s: ProgramSource| s@);
        assert(views[i as int] == arg@);
        if same_bytes(arg, "-e".as_bytes()) || same_bytes(arg, "--expression".as_bytes()) {
            if i + 1 < args.len() {
                let text = copy_bytes(args[i + 1].as_slice());
                program_sources.push(ProgramSource::Text(text));
                proof {
                    assert(program_sources@.map_values(|s: ProgramSource| s@) =~= before.push(
                        SourceView::Text(views[i + 1]),
                    ));
                }
                i = i + 2;
            } else {
                return Invocation::Exit(1);
            }
        } else if same_bytes(arg, "-f".as_bytes()) || same_bytes(arg, "--file".as_bytes()) {
            if i + 1 < args.len() {
                let file = copy_bytes(args[i + 1].as_slice());
                program_sources.push(ProgramSource::File(file));
                proof {
                    assert(program_sources@.map_values(|s: ProgramSource| s@) =~= before.push(
                        SourceView::File(views[i + 1]),
                    ));
                }
                i = i + 2;
            } else {
                return Invocation::Exit(1);
            }
        } else if same_bytes(arg, "-h".as_bytes()) || same_bytes(arg, "--help".as_bytes())
            || same_bytes(arg, "-v".as_bytes()) || same_bytes(arg, "--version".as_bytes()) {
            return Invocation::Exit(0);
        } else {
            i = i + 1;
        }
    }
    Invocation::Run(program_sources)
}

} // verus!
