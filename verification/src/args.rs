//! Command-line argument grammar.
//!
//! Arguments arrive as the platform's raw bytes (converted at the
//! process boundary) and paths leave as raw bytes again: the grammar
//! never needs to decode them.  `-` as the positional argument reads
//! from standard input; `-o <file>` redirects the output (`-o -` to
//! standard output); without `-o` the session file is rewritten in
//! place.  `--` ends option processing.

use crate::bytes::{bytes_eq, starts_with};
use vstd::prelude::*;

verus! {

/// Where the session text comes from.
pub enum Input {
    Stdin,
    Path(Vec<u8>),
}

/// Where the patched text goes.
pub enum Output {
    InPlace,
    Stdout,
    Path(Vec<u8>),
}

/// One patch run: its input and its output.
pub struct RunArgs {
    pub input: Input,
    pub output: Output,
}

/// What the command line asks for.
pub enum Args {
    Help,
    Run(RunArgs),
}

/// Why a command line is rejected.
pub enum ArgsError {
    /// No session file was named.
    MissingArg,
    /// A second positional argument.
    UnexpectedArg(Vec<u8>),
    /// An unknown long option.
    BadOption(Vec<u8>),
    /// An unknown short option.
    BadShortOption(char),
    /// A short option that needs a value, at the end of the line.
    IncompleteOption(Vec<u8>),
    /// A short option given twice.
    DuplicateOption(Vec<u8>),
}

/// What handling one short option decided.
enum ShortStep {
    /// Stop scanning this group; with `Some`, stop parsing altogether.
    Stop(Option<Args>),
    /// Go on with the next option character of the group.
    More,
}

/// A run never reads standard input while rewriting in place: there is
/// no file to rewrite.
pub open spec fn wf_run(ra: RunArgs) -> bool {
    !(ra.input is Stdin && ra.output is InPlace)
}

struct Parser {
    args: Vec<Vec<u8>>,
    next: usize,
    options_done: bool,
    input: Option<Input>,
    output: Output,
}

impl Parser {
    /// The rest of the current option group when non-empty, else the
    /// next whole argument, as the value of an option.
    fn rest_or_next(&mut self, rest: &[u8]) -> (r: Option<Vec<u8>>)
        ensures
            final(self).input == old(self).input,
            final(self).output == old(self).output,
            final(self).options_done == old(self).options_done,
            final(self).args == old(self).args,
            old(self).next <= final(self).next <= final(self).args@.len() || final(self).next
                == old(self).next,
    {
        if rest.len() > 0 {
            let mut v: Vec<u8> = Vec::new();
            v.extend_from_slice(rest);
            Some(v)
        } else if self.next < self.args.len() {
            let v = self.args[self.next].clone();
            self.next = self.next + 1;
            Some(v)
        } else {
            None
        }
    }

    /// Handles one short option character, `rest` being what follows it
    /// in the same argument.
    fn short(&mut self, opt: u8, rest: &[u8]) -> (r: Result<ShortStep, ArgsError>)
        ensures
            final(self).input == old(self).input,
            match r {
                Ok(ShortStep::Stop(Some(a))) => a is Help,
                _ => true,
            },
            final(self).args == old(self).args,
            old(self).next <= final(self).next <= final(self).args@.len() || final(self).next
                == old(self).next,
    {
        if opt == 104 {  // 'h'
            Ok(ShortStep::Stop(Some(Args::Help)))
        } else if opt == 111 {  // 'o'
            match self.output {
                Output::InPlace => {},
                _ => {
                    let mut name: Vec<u8> = Vec::new();
                    name.push(45);
                    name.push(111);
                    return Err(ArgsError::DuplicateOption(name));
                },
            }
            let next = match self.rest_or_next(rest) {
                Some(v) => v,
                None => {
                    let mut name: Vec<u8> = Vec::new();
                    name.push(45);
                    name.push(111);
                    return Err(ArgsError::IncompleteOption(name));
                },
            };
            self.output = if next.len() == 1 && next[0] == 45 {  // "-"
                Output::Stdout
            } else {
                Output::Path(next)
            };
            Ok(ShortStep::Stop(None))
        } else {
            Err(ArgsError::BadShortOption(opt as char))
        }
    }

    /// Handles one whole argument.
    fn arg(&mut self, arg: Vec<u8>) -> (r: Result<Option<Args>, ArgsError>)
        ensures
            (final(self).input is Some && final(self).input != old(self).input) ==> old(
                self,
            ).input is None,
            match r {
                Ok(Some(a)) => a is Help,
                _ => true,
            },
            final(self).args == old(self).args,
            old(self).next <= final(self).next <= final(self).args@.len() || final(self).next
                == old(self).next,
    {
        let dash = arg.len() == 1 && arg[0] == 45;  // "-"
        if self.options_done || dash {
            // a positional argument
        } else if bytes_eq(arg.as_slice(), "--".as_bytes()) {
            self.options_done = true;
            return Ok(None);
        } else if bytes_eq(arg.as_slice(), "--help".as_bytes()) {
            return Ok(Some(Args::Help));
        } else if starts_with(arg.as_slice(), "--".as_bytes()) {
            return Err(ArgsError::BadOption(arg));
        } else if starts_with(arg.as_slice(), "-".as_bytes()) {
            let mut k: usize = 1;
            while k < arg.len()
                invariant
                    1 <= k,
                    self.input == old(self).input,
                    self.args == old(self).args,
                    old(self).next <= self.next <= self.args@.len() || self.next == old(
                        self,
                    ).next,
                decreases arg.len() - k,
            {
                let opt = arg[k];
                if opt >= 128 {
                    return Err(ArgsError::BadOption(arg));
                }
                let rest = vstd::slice::slice_subrange(arg.as_slice(), k + 1, arg.len());
                match self.short(opt, rest)? {
                    ShortStep::Stop(Some(a)) => {
                        return Ok(Some(a));
                    },
                    ShortStep::Stop(None) => {
                        return Ok(None);
                    },
                    ShortStep::More => {},
                }
                k = k + 1;
            }
            return Ok(None);
        }
        if self.input.is_some() {
            return Err(ArgsError::UnexpectedArg(arg));
        }
        self.input = Some(
            if dash && !self.options_done {
                Input::Stdin
            } else {
                Input::Path(arg)
            },
        );
        Ok(None)
    }

    /// Consumes every argument, then settles the defaults: reading from
    /// standard input while set to rewrite in place writes to standard
    /// output instead.
    fn parse(self) -> (r: Result<Args, ArgsError>)
        requires
            self.next <= self.args@.len(),
        ensures
            match r {
                Ok(Args::Run(ra)) => wf_run(ra),
                _ => true,
            },
    {
        let mut this = self;
        while this.next < this.args.len()
            invariant
                this.next <= this.args@.len(),
            decreases this.args@.len() - this.next,
        {
            let a = this.args[this.next].clone();
            this.next = this.next + 1;
            match this.arg(a) {
                Ok(Some(args)) => {
                    return Ok(args);
                },
                Ok(None) => {},
                Err(e) => {
                    return Err(e);
                },
            }
        }
        let input = match this.input {
            Some(i) => i,
            None => {
                return Err(ArgsError::MissingArg);
            },
        };
        let stdin_input = match &input {
            Input::Stdin => true,
            _ => false,
        };
        let output = if stdin_input {
            match this.output {
                Output::InPlace => Output::Stdout,
                o => o,
            }
        } else {
            this.output
        };
        Ok(Args::Run(RunArgs { input, output }))
    }
}

/// Parses the command line (the program name already removed), each
/// argument as its platform bytes.
pub fn parse(args: Vec<Vec<u8>>) -> (r: Result<Args, ArgsError>)
    ensures
        match r {
            Ok(Args::Run(ra)) => wf_run(ra),
            _ => true,
        },
{
    Parser { args, next: 0, options_done: false, input: None, output: Output::InPlace }.parse()
}

} // verus!
