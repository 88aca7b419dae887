//! The command line: what the options mean, and which of them are refused.

use crate::layer::{layer_name, layer_named, Layer};
use crate::scalar::Scalar;
use crate::simulation::SimulationParams;
use crate::text::{
    comma_from, find_comma, lemma_comma_is_ahead, number_in, padded, read_number, same_text,
    trim_between, trimmed, write_padded,
};
use vstd::prelude::*;
use vstd::string::*;

verus! {

/// What the program was asked to do.
pub struct Args<S> {
    pub params: SimulationParams<S>,
    pub steps: u64,
    /// The output directory.
    pub out: String,
    pub layers: Vec<Layer>,
    /// Also write a numbered snapshot every N steps, for watching the history.
    pub snapshot_every: u64,
    pub quiet: bool,
}

/// The same, over the contents of its texts and lists.
#[verifier::ext_equal]
pub struct Request<S> {
    pub params: SimulationParams<S>,
    pub steps: u64,
    pub out: Seq<char>,
    pub layers: Seq<Layer>,
    pub snapshot_every: u64,
    pub quiet: bool,
}

impl<S: Scalar> Args<S> {
    pub open spec fn view(&self) -> Request<S> {
        Request {
            params: self.params,
            steps: self.steps,
            out: self.out@,
            layers: self.layers@,
            snapshot_every: self.snapshot_every,
            quiet: self.quiet,
        }
    }

    /// What is done where no option says otherwise.
    pub fn with_params(params: SimulationParams<S>) -> (r: Self)
        ensures
            r.view() == default_request(params),
    {
        let mut layers: Vec<Layer> = Vec::new();
        layers.push(Layer::Terrain);
        layers.push(Layer::Plates);
        layers.push(Layer::Boundaries);
        layers.push(Layer::CrustAge);
        layers.push(Layer::Flow);
        let r = Args {
            params,
            steps: 240,
            out: "out".to_owned(),
            layers,
            snapshot_every: 0,
            quiet: false,
        };
        assert(r.view() =~= default_request(params));
        r
    }
}

pub open spec fn default_request<S: Scalar>(params: SimulationParams<S>) -> Request<S> {
    Request {
        params,
        steps: 240,
        out: "out"@,
        layers: seq![
            Layer::Terrain,
            Layer::Plates,
            Layer::Boundaries,
            Layer::CrustAge,
            Layer::Flow,
        ],
        snapshot_every: 0,
        quiet: false,
    }
}

// --- options ---------------------------------------------------------------
#[derive(Clone, Copy, Debug, PartialEq, Eq, Structural)]
pub enum Flag {
    Help,
    Quiet,
    Seed,
    Steps,
    Plates,
    Continental,
    Width,
    Height,
    Dt,
    SeaLevel,
    ErosionEvery,
    Out,
    SnapshotEvery,
    Layers,
}

/// The option that a text names.
pub open spec fn flag_named(s: Seq<char>) -> Option<Flag> {
    if s == "--help"@ || s == "-h"@ {
        Some(Flag::Help)
    } else if s == "--quiet"@ || s == "-q"@ {
        Some(Flag::Quiet)
    } else if s == "--seed"@ {
        Some(Flag::Seed)
    } else if s == "--steps"@ {
        Some(Flag::Steps)
    } else if s == "--plates"@ {
        Some(Flag::Plates)
    } else if s == "--continental"@ {
        Some(Flag::Continental)
    } else if s == "--width"@ {
        Some(Flag::Width)
    } else if s == "--height"@ {
        Some(Flag::Height)
    } else if s == "--dt"@ {
        Some(Flag::Dt)
    } else if s == "--sea-level"@ {
        Some(Flag::SeaLevel)
    } else if s == "--erosion-every"@ {
        Some(Flag::ErosionEvery)
    } else if s == "--out"@ {
        Some(Flag::Out)
    } else if s == "--snapshot-every"@ {
        Some(Flag::SnapshotEvery)
    } else if s == "--layers"@ {
        Some(Flag::Layers)
    } else {
        None
    }
}

fn read_flag(s: &str) -> (r: Option<Flag>)
    ensures
        r == flag_named(s@),
{
    if same_text(s, "--help") || same_text(s, "-h") {
        Some(Flag::Help)
    } else if same_text(s, "--quiet") || same_text(s, "-q") {
        Some(Flag::Quiet)
    } else if same_text(s, "--seed") {
        Some(Flag::Seed)
    } else if same_text(s, "--steps") {
        Some(Flag::Steps)
    } else if same_text(s, "--plates") {
        Some(Flag::Plates)
    } else if same_text(s, "--continental") {
        Some(Flag::Continental)
    } else if same_text(s, "--width") {
        Some(Flag::Width)
    } else if same_text(s, "--height") {
        Some(Flag::Height)
    } else if same_text(s, "--dt") {
        Some(Flag::Dt)
    } else if same_text(s, "--sea-level") {
        Some(Flag::SeaLevel)
    } else if same_text(s, "--erosion-every") {
        Some(Flag::ErosionEvery)
    } else if same_text(s, "--out") {
        Some(Flag::Out)
    } else if same_text(s, "--snapshot-every") {
        Some(Flag::SnapshotEvery)
    } else if same_text(s, "--layers") {
        Some(Flag::Layers)
    } else {
        None
    }
}

/// The number of an option, no larger than `most`.
pub open spec fn number_up_to(raw: Seq<char>, most: int) -> Option<nat> {
    match number_in(raw) {
        Some(v) => if v <= most {
            Some(v)
        } else {
            None
        },
        None => None,
    }
}

// --- complaints ------------------------------------------------------------
pub open spec fn needs_a_value(flag: Seq<char>) -> Seq<char> {
    flag + " needs a value"@
}

pub open spec fn not_valid(flag: Seq<char>, raw: Seq<char>) -> Seq<char> {
    flag + ": '"@ + raw + "' is not a valid value"@
}

pub open spec fn unknown_option(option: Seq<char>) -> Seq<char> {
    "unknown option '"@ + option + "'"@
}

pub open spec fn unknown_layer(name: Seq<char>) -> Seq<char> {
    "unknown layer '"@ + name + "'"@
}

fn say_not_valid(flag: &str, raw: &str) -> (r: String)
    ensures
        r@ == not_valid(flag@, raw@),
{
    let mut text = flag.to_owned();
    text.append(": '");
    text.append(raw);
    text.append("' is not a valid value");
    text
}

fn say_quoted(before: &str, quoted: &str) -> (r: String)
    ensures
        r@ == before@ + quoted@ + "'"@,
{
    let mut text = before.to_owned();
    text.append(quoted);
    text.append("'");
    text
}

// --- layers ----------------------------------------------------------------
/// The layers that a list from place `i` on names, or the complaint about the
/// first that is none.
pub open spec fn layers_from(raw: Seq<char>, i: int) -> Result<Seq<Layer>, Seq<char>>
    decreases raw.len() - i,
{
    proof {
        lemma_comma_is_ahead(raw, i);
    }
    let end = comma_from(raw, i);
    let name = trimmed(raw, i, end);
    match layer_named(name) {
        None => Err(unknown_layer(name)),
        Some(l) => if end >= raw.len() {
            Ok(seq![l])
        } else {
            match layers_from(raw, end + 1) {
                Ok(rest) => Ok(seq![l] + rest),
                Err(e) => Err(e),
            }
        },
    }
}

/// The layers that a list names; `all` names every one of them.
pub open spec fn layers_in(raw: Seq<char>) -> Result<Seq<Layer>, Seq<char>> {
    if raw == "all"@ {
        Ok(Layer::ALL@)
    } else {
        layers_from(raw, 0)
    }
}

/// The rest of a list, with what came before it.
spec fn behind(
    done: Seq<Layer>,
    rest: Result<Seq<Layer>, Seq<char>>,
) -> Result<Seq<Layer>, Seq<char>> {
    match rest {
        Ok(layers) => Ok(done + layers),
        Err(e) => Err(e),
    }
}

fn read_layers(raw: &str) -> (r: Result<Vec<Layer>, String>)
    ensures
        match layers_in(raw@) {
            Ok(layers) => r is Ok && r->Ok_0@ == layers,
            Err(e) => r is Err && r->Err_0@ == e,
        },
{
    let mut layers: Vec<Layer> = Vec::new();
    if same_text(raw, "all") {
        let mut i: usize = 0;
        while i < 8
            invariant
                i <= 8,
                layers@ == Layer::ALL@.take(i as int),
            decreases 8 - i,
        {
            layers.push(Layer::ALL[i]);
            i += 1;
            assert(layers@ =~= Layer::ALL@.take(i as int));
        }
        assert(Layer::ALL@.take(8) =~= Layer::ALL@);
        return Ok(layers);
    }
    let n: usize = raw.unicode_len();
    let mut i: usize = 0;
    assert(behind(layers@, layers_from(raw@, 0)) =~= layers_from(raw@, 0)) by {
        if layers_from(raw@, 0) is Ok {
            assert(layers@ + layers_from(raw@, 0)->Ok_0 =~= layers_from(raw@, 0)->Ok_0);
        }
    }
    loop
        invariant
            i <= n,
            n == raw@.len(),
            layers_in(raw@) == behind(layers@, layers_from(raw@, i as int)),
        decreases n - i,
    {
        let end: usize = find_comma(raw, i);
        let name = trim_between(raw, i, end);
        match Layer::parse(name) {
            None => {
                return Err(say_quoted("unknown layer '", name));
            },
            Some(l) => {
                let ghost before = layers@;
                layers.push(l);
                if end >= n {
                    assert(layers@ =~= before + seq![l]);
                    return Ok(layers);
                }
                proof {
                    if let Ok(rest) = layers_from(raw@, end + 1) {
                        assert(before + (seq![l] + rest) =~= layers@ + rest);
                    }
                }
                i = end + 1;
            },
        }
    }
}

// --- values ----------------------------------------------------------------
/// The request after an option with a value, or the complaint about the value.
pub open spec fn with_value<S: Scalar>(
    a: Request<S>,
    flag: Flag,
    name: Seq<char>,
    raw: Seq<char>,
) -> Result<Request<S>, Seq<char>> {
    let p = a.params;
    let bad = Err(not_valid(name, raw));
    match flag {
        Flag::Help => Ok(a),
        Flag::Quiet => Ok(a),
        Flag::Seed => match number_up_to(raw, u64::MAX as int) {
            Some(v) => Ok(
                Request { params: SimulationParams { seed: v as u64, ..p }, ..a },
            ),
            None => bad,
        },
        Flag::Steps => match number_up_to(raw, u64::MAX as int) {
            Some(v) => Ok(Request { steps: v as u64, ..a }),
            None => bad,
        },
        Flag::Plates => match number_up_to(raw, usize::MAX as int) {
            Some(v) => Ok(
                Request {
                    params: SimulationParams {
                        plates: crate::plate::PlateParams { count: v as usize, ..p.plates },
                        ..p
                    },
                    ..a
                },
            ),
            None => bad,
        },
        Flag::Continental => match S::read(raw) {
            Some(v) => Ok(
                Request {
                    params: SimulationParams {
                        plates: crate::plate::PlateParams {
                            continental_fraction: v,
                            ..p.plates
                        },
                        ..p
                    },
                    ..a
                },
            ),
            None => bad,
        },
        Flag::Width => match number_up_to(raw, usize::MAX as int) {
            Some(v) => Ok(
                Request { params: SimulationParams { width: v as usize, ..p }, ..a },
            ),
            None => bad,
        },
        Flag::Height => match number_up_to(raw, usize::MAX as int) {
            Some(v) => Ok(
                Request { params: SimulationParams { height: v as usize, ..p }, ..a },
            ),
            None => bad,
        },
        Flag::Dt => match S::read(raw) {
            Some(v) => Ok(Request { params: SimulationParams { dt: v, ..p }, ..a }),
            None => bad,
        },
        Flag::SeaLevel => match S::read(raw) {
            Some(v) => Ok(Request { params: SimulationParams { sea_level: v, ..p }, ..a }),
            None => bad,
        },
        Flag::ErosionEvery => match number_up_to(raw, u32::MAX as int) {
            Some(v) => Ok(
                Request { params: SimulationParams { erosion_interval: v as u32, ..p }, ..a },
            ),
            None => bad,
        },
        Flag::Out => Ok(Request { out: raw, ..a }),
        Flag::SnapshotEvery => match number_up_to(raw, u64::MAX as int) {
            Some(v) => Ok(Request { snapshot_every: v as u64, ..a }),
            None => bad,
        },
        Flag::Layers => match layers_in(raw) {
            Ok(layers) => Ok(Request { layers, ..a }),
            Err(e) => Err(e),
        },
    }
}

fn set_value<S: Scalar>(args: &mut Args<S>, flag: Flag, name: &str, raw: &str) -> (r: Result<
    (),
    String,
>)
    ensures
        match with_value(old(args).view(), flag, name@, raw@) {
            Ok(a) => r is Ok && final(args).view() == a,
            Err(e) => r is Err && r->Err_0@ == e,
        },
{
    let most: u64 = u64::MAX;
    let word: u64 = usize::MAX as u64;
    match flag {
        Flag::Help | Flag::Quiet => {},
        Flag::Seed => match read_number(raw, most) {
            Some(v) => {
                args.params.seed = v;
            },
            None => {
                return Err(say_not_valid(name, raw));
            },
        },
        Flag::Steps => match read_number(raw, most) {
            Some(v) => {
                args.steps = v;
            },
            None => {
                return Err(say_not_valid(name, raw));
            },
        },
        Flag::Plates => match read_number(raw, word) {
            Some(v) => {
                args.params.plates.count = v as usize;
            },
            None => {
                return Err(say_not_valid(name, raw));
            },
        },
        Flag::Continental => match S::parsed(raw) {
            Some(v) => {
                args.params.plates.continental_fraction = v;
            },
            None => {
                return Err(say_not_valid(name, raw));
            },
        },
        Flag::Width => match read_number(raw, word) {
            Some(v) => {
                args.params.width = v as usize;
            },
            None => {
                return Err(say_not_valid(name, raw));
            },
        },
        Flag::Height => match read_number(raw, word) {
            Some(v) => {
                args.params.height = v as usize;
            },
            None => {
                return Err(say_not_valid(name, raw));
            },
        },
        Flag::Dt => match S::parsed(raw) {
            Some(v) => {
                args.params.dt = v;
            },
            None => {
                return Err(say_not_valid(name, raw));
            },
        },
        Flag::SeaLevel => match S::parsed(raw) {
            Some(v) => {
                args.params.sea_level = v;
            },
            None => {
                return Err(say_not_valid(name, raw));
            },
        },
        Flag::ErosionEvery => match read_number(raw, 4_294_967_295) {
            Some(v) => {
                args.params.erosion_interval = v as u32;
            },
            None => {
                return Err(say_not_valid(name, raw));
            },
        },
        Flag::Out => {
            args.out = raw.to_owned();
        },
        Flag::SnapshotEvery => match read_number(raw, most) {
            Some(v) => {
                args.snapshot_every = v;
            },
            None => {
                return Err(say_not_valid(name, raw));
            },
        },
        Flag::Layers => match read_layers(raw) {
            Ok(layers) => {
                args.layers = layers;
            },
            Err(e) => {
                return Err(e);
            },
        },
    }
    Ok(())
}

// --- checks ----------------------------------------------------------------
/// What is wrong with a request, if anything is.
pub open spec fn fault_in<S: Scalar>(a: Request<S>) -> Option<Seq<char>> {
    let p = a.params;
    let share = p.plates.continental_fraction;
    if p.width == 0 || p.height < 3 {
        Some("world must be at least 1x3"@)
    } else if p.plates.count < 2 {
        Some("need at least 2 plates for there to be any boundaries"@)
    } else if p.plates.count > 65534 {
        Some("at most 65534 plates"@)
    } else if !(S::of_int(0).le(share) && share.le(S::of_int(1))) {
        Some("--continental must be between 0 and 1"@)
    } else if p.dt.le(S::of_int(0)) {
        Some("--dt must be positive"@)
    } else if a.layers.len() == 0 {
        Some("no layers selected"@)
    } else {
        None
    }
}

pub fn validate<S: Scalar>(args: &Args<S>) -> (r: Result<(), String>)
    ensures
        match fault_in(args.view()) {
            None => r is Ok,
            Some(e) => r is Err && r->Err_0@ == e,
        },
{
    let p = &args.params;
    let share = p.plates.continental_fraction;
    if p.width == 0 || p.height < 3 {
        return Err("world must be at least 1x3".to_owned());
    }
    if p.plates.count < 2 {
        return Err("need at least 2 plates for there to be any boundaries".to_owned());
    }
    if p.plates.count > 65534 {
        return Err("at most 65534 plates".to_owned());
    }
    if !(S::whole(0).at_most(share) && share.at_most(S::whole(1))) {
        return Err("--continental must be between 0 and 1".to_owned());
    }
    if p.dt.at_most(S::whole(0)) {
        return Err("--dt must be positive".to_owned());
    }
    if args.layers.len() == 0 {
        return Err("no layers selected".to_owned());
    }
    Ok(())
}

// --- the command line ------------------------------------------------------
/// What a command line asks for.
pub enum Outcome<S> {
    Run(Request<S>),
    Help,
    Refused(Seq<char>),
}

/// What a command line asks for, from word `i` on.
pub open spec fn asked_from<S: Scalar>(
    words: Seq<String>,
    i: int,
    a: Request<S>,
) -> Outcome<S>
    decreases words.len() - i,
{
    if i >= words.len() {
        match fault_in(a) {
            None => Outcome::Run(a),
            Some(e) => Outcome::Refused(e),
        }
    } else {
        match flag_named(words[i]@) {
            None => Outcome::Refused(unknown_option(words[i]@)),
            Some(Flag::Help) => Outcome::Help,
            Some(Flag::Quiet) => asked_from(words, i + 1, Request { quiet: true, ..a }),
            Some(flag) => if i + 1 >= words.len() {
                Outcome::Refused(needs_a_value(words[i]@))
            } else {
                match with_value(a, flag, words[i]@, words[i + 1]@) {
                    Ok(b) => asked_from(words, i + 2, b),
                    Err(e) => Outcome::Refused(e),
                }
            },
        }
    }
}

/// Read the command line, without the name of the program. `None` is a call for
/// help.
pub fn parse_args<S: Scalar>(words: &Vec<String>, params: SimulationParams<S>) -> (r: Result<
    Option<Args<S>>,
    String,
>)
    ensures
        match asked_from(words@, 0, default_request(params)) {
            Outcome::Run(a) => r is Ok && r->Ok_0 is Some && (r->Ok_0->0).view() == a,
            Outcome::Help => r is Ok && r->Ok_0 is None,
            Outcome::Refused(e) => r is Err && r->Err_0@ == e,
        },
{
    let mut args = Args::with_params(params);
    let mut i: usize = 0;
    while i < words.len()
        invariant
            i <= words@.len(),
            asked_from(words@, 0, default_request(params)) == asked_from(
                words@,
                i as int,
                args.view(),
            ),
        decreases words@.len() - i,
    {
        let word = words[i].as_str();
        match read_flag(word) {
            None => {
                return Err(say_quoted("unknown option '", word));
            },
            Some(Flag::Help) => {
                return Ok(None);
            },
            Some(Flag::Quiet) => {
                let ghost before = args.view();
                args.quiet = true;
                assert(args.view() =~= (Request { quiet: true, ..before }));
                i += 1;
            },
            Some(flag) => {
                if i + 1 >= words.len() {
                    let mut text = word.to_owned();
                    text.append(" needs a value");
                    return Err(text);
                }
                let raw = words[i + 1].as_str();
                match set_value(&mut args, flag, word, raw) {
                    Ok(_) => {},
                    Err(e) => {
                        return Err(e);
                    },
                }
                i += 2;
            },
        }
    }
    match validate(&args) {
        Ok(_) => Ok(Some(args)),
        Err(e) => Err(e),
    }
}

// --- file names ------------------------------------------------------------
/// The file that a layer is written to: numbered for a snapshot.
pub open spec fn file_of(layer: Layer, step: Option<u64>) -> Seq<char> {
    match step {
        Some(n) => layer_name(layer) + "-"@ + padded(n as nat, 5) + ".png"@,
        None => layer_name(layer) + ".png"@,
    }
}

pub fn file_name(layer: Layer, step: Option<u64>) -> (r: String)
    ensures
        r@ == file_of(layer, step),
{
    let mut text = layer.name().to_owned();
    if let Some(n) = step {
        text.append("-");
        text.append(write_padded(n, 5).as_str());
    }
    text.append(".png");
    text
}

/// A snapshot is due after this step.
pub fn snapshot_due(step: u64, every: u64) -> (r: bool)
    ensures
        r == (every > 0 && step % every == 0),
{
    every > 0 && step % every == 0
}

/// Progress is reported after this step: after every twentieth and after the
/// last.
pub fn report_due(step: u64, steps: u64) -> (r: bool)
    ensures
        r == (step % 20 == 0 || step == steps),
{
    step % 20 == 0 || step == steps
}

// --- laws ------------------------------------------------------------------
proof fn lemma_run_is_sound<S: Scalar>(words: Seq<String>, i: int, a: Request<S>)
    ensures
        asked_from(words, i, a) matches Outcome::Run(b) ==> fault_in(b) is None,
    decreases words.len() - i,
{
    if i < words.len() {
        match flag_named(words[i]@) {
            None => {},
            Some(Flag::Help) => {},
            Some(Flag::Quiet) => {
                lemma_run_is_sound(words, i + 1, Request { quiet: true, ..a });
            },
            Some(flag) => {
                if i + 1 < words.len() {
                    if let Ok(b) = with_value(a, flag, words[i]@, words[i + 1]@) {
                        lemma_run_is_sound(words, i + 2, b);
                    }
                }
            },
        }
    }
}

/// No command line gets past the checks: what is run has no fault.
pub proof fn accepted_requests_have_no_fault<S: Scalar>(
    words: Seq<String>,
    params: SimulationParams<S>,
)
    ensures
        asked_from(words, 0, default_request(params)) matches Outcome::Run(b) ==> fault_in(b)
            is None,
{
    lemma_run_is_sound(words, 0, default_request(params));
}

} // verus!
