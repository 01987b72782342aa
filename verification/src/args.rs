//! Options of a render: the names that choose a scene and an output format,
//! and the rules that a set of options has to meet.

use vstd::prelude::*;
use vstd::string::StringSliceAdditionalSpecFns;

verus! {

/// A name that stands for none of the values it was read for; holds what
/// kind of value was asked for.
#[derive(Clone, Copy, Debug)]
pub struct ParseEnumError(pub &'static str);

/// The scenes that can be rendered.
#[derive(Clone, Copy, Debug, PartialEq, Eq, Structural)]
pub enum WhichScene {
    Weekend,
    Gay,
    Tuesday,
    Perlin,
    Earth,
    Cornell,
    Bisexual,
    Week,
}

/// The formats in which the image can be written.
#[derive(Clone, Copy, Debug, PartialEq, Eq, Structural)]
pub enum FileFormat {
    Png,
    Ppm,
}

/// The options of a render.
#[derive(Debug)]
pub struct Args {
    pub threads: usize,
    pub width: usize,
    pub samples: usize,
    pub depth: usize,
    pub world_seed: u64,
    pub sample_seed: u64,
    pub output: Option<String>,
    pub scene: WhichScene,
    pub verbose: bool,
    pub format: FileFormat,
    pub bit_depth: u8,
}

/// The options as they were read, before the rules are applied: `format` is
/// `None` when it was not given and has to be found from the output name.
#[derive(Debug)]
pub struct Options {
    pub threads: usize,
    pub width: usize,
    pub samples: usize,
    pub depth: usize,
    pub world_seed: u64,
    pub sample_seed: u64,
    pub output: Option<String>,
    pub scene: WhichScene,
    pub verbose: bool,
    pub format: Option<FileFormat>,
    pub bit_depth: u8,
}

/// The rule that a set of options breaks.
#[derive(Clone, Copy, Debug, PartialEq, Eq, Structural)]
pub enum Error {
    /// No worker thread was asked for.
    ZeroThreads,
    /// The output name is empty.
    EmptyOutput,
    /// No format was given and the output name ends in none that is known.
    UnknownExtension,
    /// The bit depth is outside 1 to 16, for PNG.
    PngBitDepth,
    /// The bit depth is outside 1 to 8, for PPM.
    PpmBitDepth,
}

/// `bytes` ends with `suffix`.
pub open spec fn ends_with(bytes: Seq<u8>, suffix: Seq<u8>) -> bool {
    bytes.len() >= suffix.len() && bytes.subrange(bytes.len() - suffix.len(), bytes.len() as int)
        == suffix
}

/// Tells whether two byte strings are the same.
fn same_bytes(a: &[u8], b: &[u8]) -> (r: bool)
    ensures
        r == (a@ == b@),
{
    if a.len() != b.len() {
        return false;
    }
    let mut k: usize = 0;
    while k < a.len()
        invariant
            k <= a@.len(),
            a@.len() == b@.len(),
            forall|i: int| 0 <= i < k ==> a@[i] == b@[i],
        decreases a@.len() - k,
    {
        if a[k] != b[k] {
            return false;
        }
        k = k + 1;
    }
    assert(a@ =~= b@);
    true
}

/// Tells whether `bytes` ends with `suffix`.
fn has_suffix(bytes: &[u8], suffix: &[u8]) -> (r: bool)
    ensures
        r == ends_with(bytes@, suffix@),
{
    if bytes.len() < suffix.len() {
        return false;
    }
    let start = bytes.len() - suffix.len();
    let ghost tail = bytes@.subrange(start as int, bytes@.len() as int);
    let mut k: usize = 0;
    while k < suffix.len()
        invariant
            k <= suffix@.len(),
            start + suffix@.len() == bytes@.len(),
            bytes@.len() == bytes.len(),
            tail == bytes@.subrange(start as int, bytes@.len() as int),
            forall|i: int| 0 <= i < k ==> tail[i] == suffix@[i],
        decreases suffix@.len() - k,
    {
        if bytes[start + k] != suffix[k] {
            assert(tail[k as int] != suffix@[k as int]);
            return false;
        }
        k = k + 1;
    }
    assert(tail =~= suffix@);
    true
}

impl WhichScene {
    /// The scene that `name` stands for.
    pub open spec fn named(name: Seq<u8>) -> Option<WhichScene> {
        if name == "weekend".spec_bytes() {
            Some(WhichScene::Weekend)
        } else if name == "gay".spec_bytes() {
            Some(WhichScene::Gay)
        } else if name == "tuesday".spec_bytes() {
            Some(WhichScene::Tuesday)
        } else if name == "perlin".spec_bytes() {
            Some(WhichScene::Perlin)
        } else if name == "earth".spec_bytes() {
            Some(WhichScene::Earth)
        } else if name == "cornell".spec_bytes() {
            Some(WhichScene::Cornell)
        } else if name == "bisexual".spec_bytes() {
            Some(WhichScene::Bisexual)
        } else if name == "week".spec_bytes() {
            Some(WhichScene::Week)
        } else {
            None
        }
    }

    /// Reads the name of a scene.
    pub fn from_str(s: &str) -> (r: Result<WhichScene, ParseEnumError>)
        ensures
            r.is_ok() == WhichScene::named(s.spec_bytes()).is_some(),
            r matches Ok(scene) ==> WhichScene::named(s.spec_bytes()) == Some(scene),
            r matches Err(e) ==> e.0 == "scene",
    {
        let name = s.as_bytes();
        if same_bytes(name, "weekend".as_bytes()) {
            Ok(WhichScene::Weekend)
        } else if same_bytes(name, "gay".as_bytes()) {
            Ok(WhichScene::Gay)
        } else if same_bytes(name, "tuesday".as_bytes()) {
            Ok(WhichScene::Tuesday)
        } else if same_bytes(name, "perlin".as_bytes()) {
            Ok(WhichScene::Perlin)
        } else if same_bytes(name, "earth".as_bytes()) {
            Ok(WhichScene::Earth)
        } else if same_bytes(name, "cornell".as_bytes()) {
            Ok(WhichScene::Cornell)
        } else if same_bytes(name, "bisexual".as_bytes()) {
            Ok(WhichScene::Bisexual)
        } else if same_bytes(name, "week".as_bytes()) {
            Ok(WhichScene::Week)
        } else {
            Err(ParseEnumError("scene"))
        }
    }
}

impl FileFormat {
    /// The format that a file name ends in.
    pub open spec fn of_extension(name: Seq<u8>) -> Option<FileFormat> {
        if ends_with(name, ".png".spec_bytes()) {
            Some(FileFormat::Png)
        } else if ends_with(name, ".ppm".spec_bytes()) {
            Some(FileFormat::Ppm)
        } else {
            None
        }
    }

    /// The format that `name` stands for.
    pub open spec fn named(name: Seq<u8>) -> Option<FileFormat> {
        if name == "png".spec_bytes() {
            Some(FileFormat::Png)
        } else if name == "ppm".spec_bytes() {
            Some(FileFormat::Ppm)
        } else {
            None
        }
    }

    /// The bit depth can be written in this format: 1 to 16 for PNG, 1 to 8
    /// for PPM.
    pub open spec fn takes_depth(self, bit_depth: u8) -> bool {
        match self {
            FileFormat::Png => 1 <= bit_depth <= 16,
            FileFormat::Ppm => 1 <= bit_depth <= 8,
        }
    }

    /// Finds the format from the end of a file name.
    pub fn from_extension(filename: &str) -> (r: Result<FileFormat, ParseEnumError>)
        ensures
            r.is_ok() == FileFormat::of_extension(filename.spec_bytes()).is_some(),
            r matches Ok(format) ==> FileFormat::of_extension(filename.spec_bytes()) == Some(
                format,
            ),
            r matches Err(e) ==> e.0 == "format",
    {
        let name = filename.as_bytes();
        if has_suffix(name, ".png".as_bytes()) {
            Ok(FileFormat::Png)
        } else if has_suffix(name, ".ppm".as_bytes()) {
            Ok(FileFormat::Ppm)
        } else {
            Err(ParseEnumError("format"))
        }
    }

    /// Reads the name of a format.
    pub fn from_str(s: &str) -> (r: Result<FileFormat, ParseEnumError>)
        ensures
            r.is_ok() == FileFormat::named(s.spec_bytes()).is_some(),
            r matches Ok(format) ==> FileFormat::named(s.spec_bytes()) == Some(format),
            r matches Err(e) ==> e.0 == "format",
    {
        let name = s.as_bytes();
        if same_bytes(name, "png".as_bytes()) {
            Ok(FileFormat::Png)
        } else if same_bytes(name, "ppm".as_bytes()) {
            Ok(FileFormat::Ppm)
        } else {
            Err(ParseEnumError("format"))
        }
    }
}

impl Error {
    /// The reason, as it is shown to the user.
    pub fn cause(&self) -> (text: &'static str)
        ensures
            text@ == (match *self {
                Error::ZeroThreads => "number of threads must be nonzero"@,
                Error::EmptyOutput => "output filename must not be empty"@,
                Error::UnknownExtension => "failed to determine format from extension"@,
                Error::PngBitDepth => "PNG image bit depth must be between 1 and 16"@,
                Error::PpmBitDepth => "PPM image bit depth must be between 1 and 8"@,
            }),
    {
        match self {
            Error::ZeroThreads => "number of threads must be nonzero",
            Error::EmptyOutput => "output filename must not be empty",
            Error::UnknownExtension => "failed to determine format from extension",
            Error::PngBitDepth => "PNG image bit depth must be between 1 and 16",
            Error::PpmBitDepth => "PPM image bit depth must be between 1 and 8",
        }
    }
}

impl Options {
    /// The format that the render writes: the one given, else the one that
    /// the output name ends in, else PPM when the image goes to standard output.
    pub open spec fn format_found(self) -> Option<FileFormat> {
        match self.format {
            Some(format) => Some(format),
            None => match self.output {
                Some(name) => FileFormat::of_extension(vstd::utf8::encode_utf8(name@)),
                None => Some(FileFormat::Ppm),
            },
        }
    }

    /// The first rule that the options break, in the order in which the rules
    /// are applied; `None` when they break none.
    pub open spec fn broken_rule(self) -> Option<Error> {
        if self.threads == 0 {
            Some(Error::ZeroThreads)
        } else if self.output matches Some(name) && name@.len() == 0 {
            Some(Error::EmptyOutput)
        } else {
            match self.format_found() {
                None => Some(Error::UnknownExtension),
                Some(FileFormat::Png) => if 1 <= self.bit_depth <= 16 {
                    None
                } else {
                    Some(Error::PngBitDepth)
                },
                Some(FileFormat::Ppm) => if 1 <= self.bit_depth <= 8 {
                    None
                } else {
                    Some(Error::PpmBitDepth)
                },
            }
        }
    }
}

/// Applies the rules to the options as read and settles the format. The
/// rules are applied in this order: at least one thread; an output name, if
/// given, is not empty; a format that was not given is found from the end of
/// the output name; the bit depth suits the format.
pub fn parse(options: Options) -> (r: Result<Args, Error>)
    ensures
        match options.broken_rule() {
            Some(rule) => r == Err::<Args, Error>(rule),
            None => r matches Ok(args) && {
                &&& args.threads == options.threads
                &&& args.width == options.width
                &&& args.samples == options.samples
                &&& args.depth == options.depth
                &&& args.world_seed == options.world_seed
                &&& args.sample_seed == options.sample_seed
                &&& args.output == options.output
                &&& args.scene == options.scene
                &&& args.verbose == options.verbose
                &&& Some(args.format) == options.format_found()
                &&& args.bit_depth == options.bit_depth
                &&& args.format.takes_depth(args.bit_depth)
            },
        },
{
    if options.threads == 0 {
        return Err(Error::ZeroThreads);
    }
    let mut format = FileFormat::Ppm;
    match &options.output {
        Some(name) => {
            if name.as_str().is_empty() {
                return Err(Error::EmptyOutput);
            }
        },
        None => {},
    }
    match options.format {
        Some(given) => {
            format = given;
        },
        None => {
            match &options.output {
                Some(name) => {
                    match FileFormat::from_extension(name.as_str()) {
                        Ok(found) => {
                            format = found;
                        },
                        Err(_) => {
                            return Err(Error::UnknownExtension);
                        },
                    }
                },
                None => {},
            }
        },
    }
    match format {
        FileFormat::Png => {
            if options.bit_depth < 1 || options.bit_depth > 16 {
                return Err(Error::PngBitDepth);
            }
        },
        FileFormat::Ppm => {
            if options.bit_depth < 1 || options.bit_depth > 8 {
                return Err(Error::PpmBitDepth);
            }
        },
    }
    Ok(
        Args {
            threads: options.threads,
            width: options.width,
            samples: options.samples,
            depth: options.depth,
            world_seed: options.world_seed,
            sample_seed: options.sample_seed,
            output: options.output,
            scene: options.scene,
            verbose: options.verbose,
            format,
            bit_depth: options.bit_depth,
        },
    )
}

} // verus!
