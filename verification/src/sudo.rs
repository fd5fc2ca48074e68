//! Commands that run under `sudo`.
//!
//! A command is a plain value: the arguments that `sudo` gets and the text on its
//! standard input.  Running it is left to the program around the library, which
//! hands the outcome back.

use crate::text::string_views;
use vstd::prelude::*;
use vstd::utf8::{decode_utf8, valid_utf8};

verus! {

/// A run of `sudo`.
#[derive(Debug, PartialEq, Eq)]
pub struct SudoCall {
    /// The arguments of `sudo`.
    pub args: Vec<String>,
    /// What `sudo` reads from its standard input.
    pub input: String,
}

/// A run of `sudo`: its arguments and its standard input.
pub struct Call {
    pub args: Seq<Seq<char>>,
    pub input: Seq<char>,
}

impl View for SudoCall {
    type V = Call;

    open spec fn view(&self) -> Call {
        Call { args: string_views(self.args@), input: self.input@ }
    }
}

/// The run of `sudo` for a command: `-S`, so that the password is read from
/// standard input, then the command; and the password on a line of its own.
pub open spec fn call_of(sudo_pw: Seq<char>, args: Seq<Seq<char>>) -> Call {
    Call { args: seq!["-S"@] + args, input: sudo_pw + seq!['\n'] }
}

/// The run of `sudo` for the command `args`.
pub fn sudo_call(sudo_pw: &str, args: Vec<String>) -> (r: SudoCall)
    ensures
        r@ == call_of(sudo_pw@, string_views(args@)),
        r.args@.len() == args@.len() + 1,
        r.args@[0]@ == "-S"@,
        forall|i: int| 0 <= i < args@.len() ==> (#[trigger] r.args@[i + 1])@ == args@[i]@,
        r.input@ == sudo_pw@ + "\n"@,
{
    proof {
        reveal_strlit("\n");
    }
    let ghost given = args@;
    let mut rest: Vec<String> = args;
    let mut all: Vec<String> = Vec::new();
    all.push("-S".to_owned());
    all.append(&mut rest);
    let mut input: String = sudo_pw.to_owned();
    input.append("\n");
    proof {
        assert("\n"@ =~= seq!['\n']);
        assert(string_views(all@) =~= seq!["-S"@] + string_views(given));
        assert forall|i: int| 0 <= i < given.len() implies (#[trigger] all@[i + 1])@
            == given[i]@ by {
            assert(string_views(all@)[i + 1] == string_views(given)[i]);
        }
    }
    SudoCall { args: all, input }
}

/// Whether a command counts as successful: it could be run, and it exited with
/// success.  `exit` is `None` where it could not be run or waited for.
pub fn sudo_run(exit: Option<bool>) -> (r: bool)
    ensures
        r == (exit == Some(true)),
{
    match exit {
        Some(success) => success,
        None => false,
    }
}

/// The text that `String::from_utf8_lossy` makes of a sequence of bytes.
pub uninterp spec fn lossy_text(bytes: Seq<u8>) -> Seq<char>;

/// Calls `String::from_utf8_lossy` and takes the text over as a `String`.
///
/// The text depends on the bytes alone.  Bytes that are valid UTF-8 are decoded;
/// what the replacement of invalid bytes looks like is not stated here.
#[verifier::external_body]
fn from_utf8_lossy(bytes: &Vec<u8>) -> (r: String)
    ensures
        r@ == lossy_text(bytes@),
        valid_utf8(bytes@) ==> r@ == decode_utf8(bytes@),
{
    String::from_utf8_lossy(bytes.as_slice()).into_owned()
}

/// The text that a command wrote to its standard output.  `stdout` is `None` where
/// the command could not be run or waited for; the text is then empty.
pub fn sudo_output(stdout: Option<Vec<u8>>) -> (r: String)
    ensures
        match stdout {
            Some(bytes) => r@ == lossy_text(bytes@) && (valid_utf8(bytes@) ==> r@ == decode_utf8(
                bytes@,
            )),
            None => r@ == Seq::<char>::empty(),
        },
{
    match stdout {
        Some(bytes) => from_utf8_lossy(&bytes),
        None => String::new(),
    }
}

/// A command reaches `sudo` unchanged behind `-S`, and the password is all that stands on its
/// standard input, on a line of its own.
pub proof fn law_sudo_call(sudo_pw: Seq<char>, args: Seq<Seq<char>>)
    ensures
        call_of(sudo_pw, args).args.len() == args.len() + 1,
        call_of(sudo_pw, args).args[0] == "-S"@,
        call_of(sudo_pw, args).args.skip(1) == args,
        call_of(sudo_pw, args).input.len() == sudo_pw.len() + 1,
        call_of(sudo_pw, args).input.drop_last() == sudo_pw,
        call_of(sudo_pw, args).input.last() == '\n',
{
    assert(call_of(sudo_pw, args).args.skip(1) =~= args);
    assert(call_of(sudo_pw, args).input.drop_last() =~= sudo_pw);
}

/// The view of a run of `sudo` shows each argument and the input.
pub proof fn law_sudo_call_view(call: SudoCall)
    ensures
        call@.args.len() == call.args@.len(),
        forall|i: int| 0 <= i < call.args@.len() ==> #[trigger] call@.args[i] == call.args@[i]@,
        call@.input == call.input@,
{
}

} // verus!
