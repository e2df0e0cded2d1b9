//! The command-line settings of the compressor and their validation.
use vstd::prelude::*;

verus! {

/// Block size used when none is given: 4 KiB.
pub const DEFAULT_BLOCK_BYTES: usize = 4096;

/// What to do, on which files, with which block size.
pub struct Args {
    /// Compress the input.
    pub compress: bool,
    /// Decompress the input.
    pub decompress: bool,
    /// Input file name; the standard input when absent.
    pub input: Option<String>,
    /// Output file name; the standard output when absent.
    pub output: Option<String>,
    /// Block size in bytes.
    pub block_size: usize,
}

impl Args {
    /// Compression is the default mode; asking for both modes, or for
    /// blocks of zero bytes, is refused.
    pub fn validate(self) -> (r: Result<Self, &'static str>)
        ensures
            (self.compress && self.decompress) ==> r == Err::<Self, &'static str>(
                "Pay for simultaneous compression-decompression",
            ),
            !(self.compress && self.decompress) && self.block_size == 0 ==> r == Err::<Self, &'static str>(
                "Block size must be greater than 0",
            ),
            !(self.compress && self.decompress) && self.block_size > 0 ==> (r matches Ok(a) && a.compress
                == !self.decompress && a.decompress == self.decompress && a.input == self.input
                && a.output == self.output && a.block_size == self.block_size),
    {
        let mut args = self;
        if !args.compress && !args.decompress {
            args.compress = true;
        }
        if args.compress && args.decompress {
            return Err("Pay for simultaneous compression-decompression");
        }
        if args.block_size == 0 {
            return Err("Block size must be greater than 0");
        }
        Ok(args)
    }
}

} // verus!
