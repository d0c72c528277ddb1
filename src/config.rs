use vstd::prelude::*;
use crate::codec::Mode;

verus! {

/// Why the command line could not be turned into a `Config`.
#[derive(Debug, Clone, Copy, PartialEq, Eq, Structural)]
pub enum ArgError {
    /// Nothing follows the program name.
    NoArguments,
    /// The decode flag is given with no path after it.
    NoPath,
    /// A first argument is followed by more, but it is not the decode flag.
    UnknownOption,
}

/// The flag that selects decoding: the single character `d`.
pub open spec fn decode_flag() -> Seq<char> {
    seq!['d']
}

/// How a command line `program [d] path` reads, as a mode and a path.
/// `args[0]` is the program name. After the decode flag the first argument is
/// the path, and any that follow it are ignored.
pub open spec fn parse_spec(args: Seq<Seq<char>>) -> Result<(Mode, Seq<char>), ArgError> {
    if args.len() < 2 {
        Err(ArgError::NoArguments)
    } else if args[1] == decode_flag() {
        if args.len() < 3 {
            Err(ArgError::NoPath)
        } else {
            Ok((Mode::Decode, args[2]))
        }
    } else if args.len() > 2 {
        Err(ArgError::UnknownOption)
    } else {
        Ok((Mode::Encode, args[1]))
    }
}

/// The text of each argument.
pub open spec fn arg_views(args: Seq<String>) -> Seq<Seq<char>> {
    args.map_values(|a: String| a@)
}

/// The suffix added to the input's path to name the output file.
pub open spec fn extension_of(mode: Mode) -> Seq<char> {
    match mode {
        Mode::Encode => seq!['.', 'r', 'l', 'e'],
        Mode::Decode => seq!['.', 'd', 'a', 't'],
    }
}

/// What one run of the program does: which transform, on which file.
pub struct Config {
    pub mode: Mode,
    pub path: String,
}

impl Config {
    /// Reads the command line `program [d] path`: with the flag `d` the file
    /// is decoded, without it encoded. Anything else before the path is
    /// refused rather than taken for a path.
    pub fn new(args: &[String]) -> (r: Result<Config, ArgError>)
        ensures
            r matches Ok(c) ==> parse_spec(arg_views(args@)) == Ok::<(Mode, Seq<char>), ArgError>(
                (c.mode, c.path@),
            ),
            r matches Err(e) ==> parse_spec(arg_views(args@)) == Err::<(Mode, Seq<char>), ArgError>(
                e,
            ),
    {
        let ghost views = arg_views(args@);
        if args.len() < 2 {
            return Err(ArgError::NoArguments);
        }
        let flag = String::from_str("d");
        proof {
            reveal_strlit("d");
            assert(flag@ =~= decode_flag());
            assert(views[1] == args@[1]@);
        }
        if args[1] == flag {
            if args.len() < 3 {
                return Err(ArgError::NoPath);
            }
            assert(views[2] == args@[2]@);
            return Ok(Config { mode: Mode::Decode, path: args[2].clone() });
        }
        if args.len() > 2 {
            return Err(ArgError::UnknownOption);
        }
        Ok(Config { mode: Mode::Encode, path: args[1].clone() })
    }

    /// The path of the file to write: the input's path with `.rle` added
    /// when encoding and `.dat` added when decoding. The old extension is
    /// kept, so `a.txt` encodes to `a.txt.rle`.
    pub fn output_path(&self) -> (r: String)
        ensures
            r@ == self.path@ + extension_of(self.mode),
    {
        let ext = match self.mode {
            Mode::Encode => ".rle",
            Mode::Decode => ".dat",
        };
        proof {
            reveal_strlit(".rle");
            reveal_strlit(".dat");
        }
        assert(ext@ =~= extension_of(self.mode));
        self.path.clone().concat(ext)
    }
}

} // verus!
