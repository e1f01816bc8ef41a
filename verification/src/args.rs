//! The command line.

use vstd::prelude::*;
use vstd::string::StringExecFns;

verus! {

/// What a run was asked to do.  A path of `-` stands for a standard stream.
#[derive(Debug, Clone)]
pub struct Args {
    pub image: String,
    pub mask: String,
    pub output: String,
    /// The weight file, unless it is to be searched for.
    pub weights: Option<String>,
    pub force_cpu: bool,
    pub force_gpu: bool,
    /// Run the network on a window around the hole instead of the whole image.
    pub tile: bool,
    /// Fill a large hole in sections, from its rim inward.
    pub sections: bool,
}

/// What the command line asks for.
#[derive(Debug, Clone)]
pub enum Parsed {
    Help,
    Run(Args),
}

/// The options read so far.
#[verifier::ext_equal]
pub struct Options {
    pub image: Option<Seq<char>>,
    pub mask: Option<Seq<char>>,
    pub output: Option<Seq<char>>,
    pub weights: Option<Seq<char>>,
    pub force_cpu: bool,
    pub force_gpu: bool,
    pub tile: bool,
    pub sections: bool,
}

/// What reading the words of the command line comes to.
pub enum Reading {
    Help,
    Bad(Seq<char>),
    Done(Options),
}

/// No options at all.
pub open spec fn no_options() -> Options {
    Options {
        image: None,
        mask: None,
        output: None,
        weights: None,
        force_cpu: false,
        force_gpu: false,
        tile: false,
        sections: false,
    }
}

/// The complaint about an option without its value.
pub open spec fn needs_value(name: Seq<char>) -> Seq<char> {
    name + " needs a value"@
}

/// Read the words from left to right: later options override earlier ones, and the
/// first request for help or the first mistake ends the reading.
pub open spec fn read_words(words: Seq<Seq<char>>, o: Options) -> Reading
    decreases words.len(),
{
    if words.len() == 0 {
        Reading::Done(o)
    } else {
        let word = words[0];
        let rest = words.skip(1);
        if word == "--image"@ {
            if rest.len() == 0 {
                Reading::Bad(needs_value(word))
            } else {
                read_words(rest.skip(1), Options { image: Some(rest[0]), ..o })
            }
        } else if word == "--mask"@ {
            if rest.len() == 0 {
                Reading::Bad(needs_value(word))
            } else {
                read_words(rest.skip(1), Options { mask: Some(rest[0]), ..o })
            }
        } else if word == "--output"@ {
            if rest.len() == 0 {
                Reading::Bad(needs_value(word))
            } else {
                read_words(rest.skip(1), Options { output: Some(rest[0]), ..o })
            }
        } else if word == "--weights"@ {
            if rest.len() == 0 {
                Reading::Bad(needs_value(word))
            } else {
                read_words(rest.skip(1), Options { weights: Some(rest[0]), ..o })
            }
        } else if word == "--cpu"@ {
            read_words(rest, Options { force_cpu: true, ..o })
        } else if word == "--gpu"@ {
            read_words(rest, Options { force_gpu: true, ..o })
        } else if word == "--tile"@ {
            read_words(rest, Options { tile: true, ..o })
        } else if word == "--sections"@ {
            read_words(rest, Options { sections: true, ..o })
        } else if word == "-h"@ || word == "--help"@ {
            Reading::Help
        } else {
            Reading::Bad("unknown argument "@ + word)
        }
    }
}

/// What is wrong with the options as a whole, if anything.
pub open spec fn complaint(o: Options) -> Option<Seq<char>> {
    if o.image is None {
        Some("--image is required"@)
    } else if o.mask is None {
        Some("--mask is required"@)
    } else if o.output is None {
        Some("--output is required"@)
    } else if o.image == Some("-"@) && o.mask == Some("-"@) {
        Some("--image and --mask cannot both be '-' (stdin has only one stream)"@)
    } else if o.tile && o.sections {
        Some("--tile and --sections are mutually exclusive"@)
    } else {
        None
    }
}

/// The text of an optional word.
pub open spec fn word_of(s: Option<String>) -> Option<Seq<char>> {
    match s {
        Some(s) => Some(s@),
        None => None,
    }
}

/// `a` holds exactly the options `o`.
pub open spec fn args_of(o: Options, a: Args) -> bool {
    &&& o.image == Some(a.image@)
    &&& o.mask == Some(a.mask@)
    &&& o.output == Some(a.output@)
    &&& o.weights == word_of(a.weights)
    &&& o.force_cpu == a.force_cpu
    &&& o.force_gpu == a.force_gpu
    &&& o.tile == a.tile
    &&& o.sections == a.sections
}

/// The words as text.
pub open spec fn words_of(words: Seq<String>) -> Seq<Seq<char>> {
    words.map_values(|s: String| s@)
}

fn same(a: &String, b: &str) -> (r: bool)
    ensures
        r == (a@ == b@),
{
    *a == b.to_owned()
}

/// The value after the option at `i`, if there is one.
fn value_at(words: &Vec<String>, i: usize) -> (r: Result<String, String>)
    requires
        i < words.len(),
    ensures
        match r {
            Ok(v) => i + 1 < words@.len() && v@ == words@[i + 1]@,
            Err(e) => i + 1 == words@.len() && e@ == needs_value(words@[i as int]@),
        },
{
    if i + 1 < words.len() {
        Ok(words[i + 1].clone())
    } else {
        let mut e: String = words[i].clone();
        e.append(" needs a value");
        Err(e)
    }
}

/// Read the words of the command line, the program's own name not among them.
pub fn parse_args(words: &Vec<String>) -> (res: Result<Parsed, String>)
    ensures
        match read_words(words_of(words@), no_options()) {
            Reading::Help => res matches Ok(p) && p is Help,
            Reading::Bad(text) => res matches Err(e) && e@ == text,
            Reading::Done(o) => match complaint(o) {
                Some(text) => res matches Err(e) && e@ == text,
                None => res matches Ok(Parsed::Run(a)) && args_of(o, a),
            },
        },
{
    let ghost all = words_of(words@);
    let ghost mut o = no_options();
    let mut image: Option<String> = None;
    let mut mask: Option<String> = None;
    let mut output: Option<String> = None;
    let mut weights: Option<String> = None;
    let mut force_cpu: bool = false;
    let mut force_gpu: bool = false;
    let mut tile: bool = false;
    let mut sections: bool = false;
    let mut i: usize = 0;
    proof {
        assert(all.skip(0) =~= all);
    }
    while i < words.len()
        invariant
            i <= words@.len(),
            all == words_of(words@),
            o == (Options {
                image: word_of(image),
                mask: word_of(mask),
                output: word_of(output),
                weights: word_of(weights),
                force_cpu,
                force_gpu,
                tile,
                sections,
            }),
            read_words(all, no_options()) == read_words(all.skip(i as int), o),
        decreases words@.len() - i,
    {
        let word: &String = &words[i];
        proof {
            let here = all.skip(i as int);
            assert(here[0] == word@);
            assert(here.skip(1) =~= all.skip(i + 1));
            if i + 1 < words@.len() {
                assert(here.skip(1).skip(1) =~= all.skip(i + 2));
                assert(here.skip(1)[0] == words@[i + 1]@);
            }
        }
        if same(word, "--image") {
            match value_at(words, i) {
                Ok(v) => {
                    image = Some(v);
                },
                Err(e) => {
                    return Err(e);
                },
            }
            i += 2;
        } else if same(word, "--mask") {
            match value_at(words, i) {
                Ok(v) => {
                    mask = Some(v);
                },
                Err(e) => {
                    return Err(e);
                },
            }
            i += 2;
        } else if same(word, "--output") {
            match value_at(words, i) {
                Ok(v) => {
                    output = Some(v);
                },
                Err(e) => {
                    return Err(e);
                },
            }
            i += 2;
        } else if same(word, "--weights") {
            match value_at(words, i) {
                Ok(v) => {
                    weights = Some(v);
                },
                Err(e) => {
                    return Err(e);
                },
            }
            i += 2;
        } else if same(word, "--cpu") {
            force_cpu = true;
            i += 1;
        } else if same(word, "--gpu") {
            force_gpu = true;
            i += 1;
        } else if same(word, "--tile") {
            tile = true;
            i += 1;
        } else if same(word, "--sections") {
            sections = true;
            i += 1;
        } else if same(word, "-h") || same(word, "--help") {
            return Ok(Parsed::Help);
        } else {
            let mut e: String = "unknown argument ".to_owned();
            e.append(word.as_str());
            return Err(e);
        }
        proof {
            o = Options {
                image: word_of(image),
                mask: word_of(mask),
                output: word_of(output),
                weights: word_of(weights),
                force_cpu,
                force_gpu,
                tile,
                sections,
            };
        }
    }
    proof {
        assert(all.skip(i as int).len() == 0);
    }
    let image: String = match image {
        Some(s) => s,
        None => {
            return Err("--image is required".to_owned());
        },
    };
    let mask: String = match mask {
        Some(s) => s,
        None => {
            return Err("--mask is required".to_owned());
        },
    };
    let output: String = match output {
        Some(s) => s,
        None => {
            return Err("--output is required".to_owned());
        },
    };
    if same(&image, "-") && same(&mask, "-") {
        return Err(
            "--image and --mask cannot both be '-' (stdin has only one stream)".to_owned(),
        );
    }
    if tile && sections {
        return Err("--tile and --sections are mutually exclusive".to_owned());
    }
    Ok(Parsed::Run(Args { image, mask, output, weights, force_cpu, force_gpu, tile, sections }))
}

/// The three files are required, only one of the inputs can be standard input, and the
/// two ways of cutting the work down exclude each other: nothing else is ever run.
pub proof fn law_accepted_arguments(words: Seq<Seq<char>>, a: Args)
    requires
        read_words(words, no_options()) matches Reading::Done(o) && complaint(o) is None && args_of(
            o,
            a,
        ),
    ensures
        !(a.image@ == "-"@ && a.mask@ == "-"@),
        !(a.tile && a.sections),
{
}

/// The options are different words.
proof fn lemma_words_apart()
    ensures
        "--image"@ != "--mask"@,
        "--image"@ != "--output"@,
        "--image"@ != "--weights"@,
        "--image"@ != "--cpu"@,
        "--image"@ != "--gpu"@,
        "--image"@ != "--tile"@,
        "--image"@ != "--sections"@,
        "--image"@ != "-h"@,
        "--image"@ != "--help"@,
        "--mask"@ != "--output"@,
        "--mask"@ != "--weights"@,
        "--mask"@ != "--cpu"@,
        "--mask"@ != "--gpu"@,
        "--mask"@ != "--tile"@,
        "--mask"@ != "--sections"@,
        "--mask"@ != "-h"@,
        "--mask"@ != "--help"@,
        "--output"@ != "--weights"@,
        "--output"@ != "--cpu"@,
        "--output"@ != "--gpu"@,
        "--output"@ != "--tile"@,
        "--output"@ != "--sections"@,
        "--output"@ != "-h"@,
        "--output"@ != "--help"@,
        "--weights"@ != "--cpu"@,
        "--weights"@ != "--gpu"@,
        "--weights"@ != "--tile"@,
        "--weights"@ != "--sections"@,
        "--weights"@ != "-h"@,
        "--weights"@ != "--help"@,
        "--cpu"@ != "--gpu"@,
        "--cpu"@ != "--tile"@,
        "--cpu"@ != "--sections"@,
        "--cpu"@ != "-h"@,
        "--cpu"@ != "--help"@,
        "--gpu"@ != "--tile"@,
        "--gpu"@ != "--sections"@,
        "--gpu"@ != "-h"@,
        "--gpu"@ != "--help"@,
        "--tile"@ != "--sections"@,
        "--tile"@ != "-h"@,
        "--tile"@ != "--help"@,
        "--sections"@ != "-h"@,
        "--sections"@ != "--help"@,
        "-h"@ != "--help"@,
{
    reveal_strlit("--image");
    reveal_strlit("--mask");
    reveal_strlit("--output");
    reveal_strlit("--weights");
    reveal_strlit("--cpu");
    reveal_strlit("--gpu");
    reveal_strlit("--tile");
    reveal_strlit("--sections");
    reveal_strlit("-h");
    reveal_strlit("--help");
    assert("--image"@.len() != "--mask"@.len());
    assert("--image"@.len() != "--output"@.len());
    assert("--image"@.len() != "--weights"@.len());
    assert("--image"@.len() != "--cpu"@.len());
    assert("--image"@.len() != "--gpu"@.len());
    assert("--image"@.len() != "--tile"@.len());
    assert("--image"@.len() != "--sections"@.len());
    assert("--image"@.len() != "-h"@.len());
    assert("--image"@.len() != "--help"@.len());
    assert("--mask"@.len() != "--output"@.len());
    assert("--mask"@.len() != "--weights"@.len());
    assert("--mask"@.len() != "--cpu"@.len());
    assert("--mask"@.len() != "--gpu"@.len());
    assert("--mask"@[2] != "--tile"@[2]);
    assert("--mask"@.len() != "--sections"@.len());
    assert("--mask"@.len() != "-h"@.len());
    assert("--mask"@[2] != "--help"@[2]);
    assert("--output"@.len() != "--weights"@.len());
    assert("--output"@.len() != "--cpu"@.len());
    assert("--output"@.len() != "--gpu"@.len());
    assert("--output"@.len() != "--tile"@.len());
    assert("--output"@.len() != "--sections"@.len());
    assert("--output"@.len() != "-h"@.len());
    assert("--output"@.len() != "--help"@.len());
    assert("--weights"@.len() != "--cpu"@.len());
    assert("--weights"@.len() != "--gpu"@.len());
    assert("--weights"@.len() != "--tile"@.len());
    assert("--weights"@.len() != "--sections"@.len());
    assert("--weights"@.len() != "-h"@.len());
    assert("--weights"@.len() != "--help"@.len());
    assert("--cpu"@[2] != "--gpu"@[2]);
    assert("--cpu"@.len() != "--tile"@.len());
    assert("--cpu"@.len() != "--sections"@.len());
    assert("--cpu"@.len() != "-h"@.len());
    assert("--cpu"@.len() != "--help"@.len());
    assert("--gpu"@.len() != "--tile"@.len());
    assert("--gpu"@.len() != "--sections"@.len());
    assert("--gpu"@.len() != "-h"@.len());
    assert("--gpu"@.len() != "--help"@.len());
    assert("--tile"@.len() != "--sections"@.len());
    assert("--tile"@.len() != "-h"@.len());
    assert("--tile"@[2] != "--help"@[2]);
    assert("--sections"@.len() != "-h"@.len());
    assert("--sections"@.len() != "--help"@.len());
    assert("-h"@.len() != "--help"@.len());
}

/// Words that have been read do not matter to those that come after them.
proof fn lemma_read_on(words: Seq<Seq<char>>, o: Options, done: Options, rest: Seq<Seq<char>>)
    requires
        read_words(words, o) == Reading::Done(done),
    ensures
        read_words(words + rest, o) == read_words(rest, done),
    decreases words.len(),
{
    if words.len() == 0 {
        assert(words + rest =~= rest);
    } else {
        let all = words + rest;
        let word = words[0];
        assert(all[0] == word);
        assert(all.skip(1) =~= words.skip(1) + rest);
        if word == "--image"@ || word == "--mask"@ || word == "--output"@ || word == "--weights"@ {
            let value = words.skip(1)[0];
            assert(all.skip(1)[0] == value);
            assert(all.skip(1).skip(1) =~= words.skip(1).skip(1) + rest);
            let next = if word == "--image"@ {
                Options { image: Some(value), ..o }
            } else if word == "--mask"@ {
                Options { mask: Some(value), ..o }
            } else if word == "--output"@ {
                Options { output: Some(value), ..o }
            } else {
                Options { weights: Some(value), ..o }
            };
            lemma_read_on(words.skip(1).skip(1), next, done, rest);
        } else {
            let next = if word == "--cpu"@ {
                Options { force_cpu: true, ..o }
            } else if word == "--gpu"@ {
                Options { force_gpu: true, ..o }
            } else if word == "--tile"@ {
                Options { tile: true, ..o }
            } else {
                Options { sections: true, ..o }
            };
            lemma_read_on(words.skip(1), next, done, rest);
        }
    }
}

/// The words of a command line are a run with these arguments.
pub open spec fn is_run(words: Seq<Seq<char>>, a: Args) -> bool {
    read_words(words, no_options()) matches Reading::Done(o) && complaint(o) is None && args_of(o, a)
}

/// Two runs have the same files.
pub open spec fn same_files(a: Args, b: Args) -> bool {
    a.image@ == b.image@ && a.mask@ == b.mask@ && a.output@ == b.output@ && word_of(a.weights) == word_of(
        b.weights,
    )
}

/// Two runs have the same switches.
pub open spec fn same_switches(a: Args, b: Args) -> bool {
    a.force_cpu == b.force_cpu && a.force_gpu == b.force_gpu && a.tile == b.tile && a.sections
        == b.sections
}

/// One word more: each of the four switches turns on what it is named after, and leaves
/// everything else as it was.
pub proof fn law_a_switch_turns_on_its_own(words: Seq<Seq<char>>, a: Args, b: Args)
    requires
        is_run(words, a),
    ensures
        is_run(words.push("--cpu"@), b) ==> b.force_cpu && same_files(a, b) && same_switches(
            (Args { force_cpu: true, ..a }),
            b,
        ),
        is_run(words.push("--gpu"@), b) ==> b.force_gpu && same_files(a, b) && same_switches(
            (Args { force_gpu: true, ..a }),
            b,
        ),
        is_run(words.push("--tile"@), b) ==> b.tile && same_files(a, b) && same_switches(
            (Args { tile: true, ..a }),
            b,
        ),
        is_run(words.push("--sections"@), b) ==> b.sections && same_files(a, b) && same_switches(
            (Args { sections: true, ..a }),
            b,
        ),
{
    lemma_words_apart();
    reveal_with_fuel(read_words, 3);
    let o = read_words(words, no_options())->Done_0;
    let more: Seq<Seq<char>> = seq!["--cpu"@];
    lemma_read_on(words, no_options(), o, more);
    assert(words + more =~= words.push("--cpu"@));
    assert(more.skip(1).len() == 0);
    let more: Seq<Seq<char>> = seq!["--gpu"@];
    lemma_read_on(words, no_options(), o, more);
    assert(words + more =~= words.push("--gpu"@));
    assert(more.skip(1).len() == 0);
    let more: Seq<Seq<char>> = seq!["--tile"@];
    lemma_read_on(words, no_options(), o, more);
    assert(words + more =~= words.push("--tile"@));
    assert(more.skip(1).len() == 0);
    let more: Seq<Seq<char>> = seq!["--sections"@];
    lemma_read_on(words, no_options(), o, more);
    assert(words + more =~= words.push("--sections"@));
    assert(more.skip(1).len() == 0);
}

/// Two words more: each of the four files is the last value that it was given, and nothing
/// else depends on it.
pub proof fn law_the_last_value_counts(words: Seq<Seq<char>>, value: Seq<char>, a: Args, b: Args)
    requires
        is_run(words, a),
    ensures
        is_run(words.push("--image"@).push(value), b) ==> {
            &&& b.image@ == value
            &&& b.mask@ == a.mask@
            &&& b.output@ == a.output@
            &&& word_of(b.weights) == word_of(a.weights)
            &&& same_switches(a, b)
        },
        is_run(words.push("--mask"@).push(value), b) ==> {
            &&& b.mask@ == value
            &&& b.image@ == a.image@
            &&& b.output@ == a.output@
            &&& word_of(b.weights) == word_of(a.weights)
            &&& same_switches(a, b)
        },
        is_run(words.push("--output"@).push(value), b) ==> {
            &&& b.output@ == value
            &&& b.image@ == a.image@
            &&& b.mask@ == a.mask@
            &&& word_of(b.weights) == word_of(a.weights)
            &&& same_switches(a, b)
        },
        is_run(words.push("--weights"@).push(value), b) ==> {
            &&& b.weights matches Some(s) && s@ == value
            &&& b.image@ == a.image@
            &&& b.mask@ == a.mask@
            &&& b.output@ == a.output@
            &&& same_switches(a, b)
        },
{
    lemma_words_apart();
    reveal_with_fuel(read_words, 3);
    let o = read_words(words, no_options())->Done_0;
    let more: Seq<Seq<char>> = seq!["--image"@, value];
    lemma_read_on(words, no_options(), o, more);
    assert(words + more =~= words.push("--image"@).push(value));
    assert(more.skip(1)[0] == value && more.skip(1).skip(1).len() == 0);
    let more: Seq<Seq<char>> = seq!["--mask"@, value];
    lemma_read_on(words, no_options(), o, more);
    assert(words + more =~= words.push("--mask"@).push(value));
    assert(more.skip(1)[0] == value && more.skip(1).skip(1).len() == 0);
    let more: Seq<Seq<char>> = seq!["--output"@, value];
    lemma_read_on(words, no_options(), o, more);
    assert(words + more =~= words.push("--output"@).push(value));
    assert(more.skip(1)[0] == value && more.skip(1).skip(1).len() == 0);
    let more: Seq<Seq<char>> = seq!["--weights"@, value];
    lemma_read_on(words, no_options(), o, more);
    assert(words + more =~= words.push("--weights"@).push(value));
    assert(more.skip(1)[0] == value && more.skip(1).skip(1).len() == 0);
}

/// What is said of words that no run can have: help is given on request, whatever stands
/// after it, a file without its value and an unknown word are complaints, and so are missing
/// files, two standard inputs and two ways of cutting the work down.
pub proof fn law_what_is_not_run(words: Seq<Seq<char>>, o: Options, rest: Seq<Seq<char>>, word: Seq<char>)
    requires
        read_words(words, no_options()) == Reading::Done(o),
    ensures
        read_words(words + seq!["-h"@] + rest, no_options()) is Help,
        read_words(words + seq!["--help"@] + rest, no_options()) is Help,
        read_words(words.push("--image"@), no_options()) is Bad,
        read_words(words.push("--mask"@), no_options()) is Bad,
        read_words(words.push("--output"@), no_options()) is Bad,
        read_words(words.push("--weights"@), no_options()) is Bad,
        !is_option(word) ==> read_words(words + seq![word] + rest, no_options()) == Reading::Bad(
            "unknown argument "@ + word,
        ),
        complaint(o) is None <==> o.image is Some && o.mask is Some && o.output is Some && !(o.image == Some(
            "-"@,
        ) && o.mask == Some("-"@)) && !(o.tile && o.sections),
{
    lemma_words_apart();
    reveal_with_fuel(read_words, 3);
    let h: Seq<Seq<char>> = seq!["-h"@] + rest;
    let help: Seq<Seq<char>> = seq!["--help"@] + rest;
    let other: Seq<Seq<char>> = seq![word] + rest;
    lemma_read_on(words, no_options(), o, h);
    lemma_read_on(words, no_options(), o, help);
    lemma_read_on(words, no_options(), o, other);
    assert(words + h =~= words + seq!["-h"@] + rest);
    assert(words + help =~= words + seq!["--help"@] + rest);
    assert(words + other =~= words + seq![word] + rest);
    assert(h[0] == "-h"@ && help[0] == "--help"@ && other[0] == word);
    let more: Seq<Seq<char>> = seq!["--image"@];
    lemma_read_on(words, no_options(), o, more);
    assert(words + more =~= words.push("--image"@));
    assert(more.skip(1).len() == 0);
    let more: Seq<Seq<char>> = seq!["--mask"@];
    lemma_read_on(words, no_options(), o, more);
    assert(words + more =~= words.push("--mask"@));
    assert(more.skip(1).len() == 0);
    let more: Seq<Seq<char>> = seq!["--output"@];
    lemma_read_on(words, no_options(), o, more);
    assert(words + more =~= words.push("--output"@));
    assert(more.skip(1).len() == 0);
    let more: Seq<Seq<char>> = seq!["--weights"@];
    lemma_read_on(words, no_options(), o, more);
    assert(words + more =~= words.push("--weights"@));
    assert(more.skip(1).len() == 0);
}

/// Whether a word is one of those that the command line knows.
pub open spec fn is_option(word: Seq<char>) -> bool {
    ||| word == "--image"@ || word == "--mask"@ || word == "--output"@ || word == "--weights"@
    ||| word == "--cpu"@ || word == "--gpu"@ || word == "--tile"@ || word == "--sections"@
    ||| word == "-h"@ || word == "--help"@
}

} // verus!
