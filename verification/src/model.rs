//! Running a trained network: what the graph declares, what it is given, and what can go wrong.
//!
//! The runtime library is opened and the graph is run by the caller.

use vstd::prelude::*;
use vstd::string::*;

use crate::chars::{chars_of, decimal, decimal_string, join2, join3, join5, same};
use crate::io::lines::{quoted, quoted_text, texts};

verus! {

/// What went wrong when a model was loaded or run.
#[derive(Debug)]
pub enum ModelError {
    /// The file could not be read, or is not a graph.
    Load(String),
    /// The graph refused its inputs.
    Run(String),
    /// The graph gave an output that is not a tensor of single precision numbers.
    UnsupportedOutput(String),
    /// No runtime library could be opened.
    RuntimeMissing(String),
}

impl ModelError {
    /// The sentence describing the error.
    pub open spec fn text(&self) -> Seq<char> {
        match self {
            ModelError::Load(message) => "could not load the ONNX model: "@ + message@,
            ModelError::Run(message) => "inference failed: "@ + message@,
            ModelError::UnsupportedOutput(message) => "unsupported model output: "@ + message@,
            ModelError::RuntimeMissing(message) => "ONNX Runtime is unavailable: "@ + message@,
        }
    }

    /// The sentence describing the error.
    pub fn message(&self) -> (s: String)
        ensures
            s@ == self.text(),
    {
        match self {
            ModelError::Load(message) => join2(
                "could not load the ONNX model: ",
                message.as_str(),
            ),
            ModelError::Run(message) => join2("inference failed: ", message.as_str()),
            ModelError::UnsupportedOutput(message) => join2(
                "unsupported model output: ",
                message.as_str(),
            ),
            ModelError::RuntimeMissing(message) => join2(
                "ONNX Runtime is unavailable: ",
                message.as_str(),
            ),
        }
    }
}

/// An input or output of a graph, as the graph declares it. A free dimension is -1.
#[derive(Clone, Debug, PartialEq, Eq)]
pub struct Port {
    pub name: String,
    pub shape: Vec<i64>,
    pub dtype: String,
}

/// The names of ports.
pub open spec fn port_names(ports: Seq<Port>) -> Seq<Seq<char>> {
    Seq::new(ports.len(), |i: int| ports[i].name@)
}

/// The first `n` names in quotation marks, between commas.
pub open spec fn name_list(names: Seq<Seq<char>>, n: int) -> Seq<char>
    decreases n,
{
    if n <= 0 {
        Seq::empty()
    } else if n == 1 {
        quoted_text(names[0])
    } else {
        name_list(names, n - 1) + ", "@ + quoted_text(names[n - 1])
    }
}

/// The complaint about an input that a graph does not have.
pub open spec fn no_such_input(name: Seq<char>, declared: Seq<Seq<char>>) -> Seq<char> {
    "the graph has no input named "@ + quoted_text(name) + "; it declares ["@ + name_list(
        declared,
        declared.len() as int,
    ) + "]"@
}

/// The first given name from `i` on that is not declared.
pub open spec fn first_unknown(
    given: Seq<Seq<char>>,
    declared: Seq<Seq<char>>,
    i: int,
) -> int
    decreases given.len() - i,
{
    if i >= given.len() || !declared.contains(given[i]) {
        i
    } else {
        first_unknown(given, declared, i + 1)
    }
}

fn declares(ports: &[Port], name: &str) -> (yes: bool)
    ensures
        yes == port_names(ports@).contains(name@),
{
    let n: usize = ports.len();
    let wanted = chars_of(name);
    for i in 0..n
        invariant
            n == ports@.len(),
            wanted@ == name@,
            forall|j: int| 0 <= j < i ==> (#[trigger] ports@[j]).name@ != name@,
    {
        if same(&chars_of(ports[i].name.as_str()), &wanted) {
            assert(port_names(ports@)[i as int] == name@);
            return true;
        }
    }
    assert forall|j: int| 0 <= j < n implies #[trigger] port_names(ports@)[j] != name@ by {
        assert(ports@[j].name@ != name@);
    }
    false
}

fn list_names(ports: &[Port]) -> (list: String)
    ensures
        list@ == name_list(port_names(ports@), ports@.len() as int),
{
    let n: usize = ports.len();
    let mut list = String::new();
    for i in 0..n
        invariant
            n == ports@.len(),
            list@ == name_list(port_names(ports@), i as int),
    {
        let form = quoted(ports[i].name.as_str());
        if i == 0 {
            list = form;
        } else {
            list = join3(list.as_str(), ", ", form.as_str());
        }
    }
    list
}

/// Whether inputs were given by names that a graph declares.
pub fn check_inputs(ports: &[Port], given: &[String]) -> (checked: Result<(), ModelError>)
    ensures
        ({
            let names = texts(given@);
            let declared = port_names(ports@);
            let at = first_unknown(names, declared, 0);
            match checked {
                Ok(()) => given@.len() > 0 && at == given@.len(),
                Err(ModelError::Run(m)) => if given@.len() == 0 {
                    m@ == "no inputs were supplied"@
                } else {
                    at < given@.len() && m@ == no_such_input(names[at], declared)
                },
                Err(_) => false,
            }
        }),
{
    let n: usize = given.len();
    if n == 0 {
        return Err(ModelError::Run("no inputs were supplied".to_owned()));
    }
    let ghost names = texts(given@);
    let ghost declared = port_names(ports@);
    for i in 0..n
        invariant
            n == given@.len(),
            n > 0,
            names == texts(given@),
            declared == port_names(ports@),
            first_unknown(names, declared, 0) == first_unknown(names, declared, i as int),
    {
        if !declares(ports, given[i].as_str()) {
            let name = quoted(given[i].as_str());
            let list = list_names(ports);
            return Err(
                ModelError::Run(
                    join5(
                        "the graph has no input named ",
                        name.as_str(),
                        "; it declares [",
                        list.as_str(),
                        "]",
                    ),
                ),
            );
        }
    }
    Ok(())
}

/// The name of the only input of a graph that is given one: the first it declares.
pub fn first_input(ports: &[Port]) -> (name: Result<&str, ModelError>)
    ensures
        match name {
            Ok(n) => ports@.len() > 0 && n@ == ports@[0].name@,
            Err(ModelError::Run(m)) => ports@.len() == 0 && m@ == "the graph declares no inputs"@,
            Err(_) => false,
        },
{
    if ports.len() == 0 {
        return Err(ModelError::Run("the graph declares no inputs".to_owned()));
    }
    Ok(ports[0].name.as_str())
}

/// Whether the outputs that a graph declares are all among its results; the first that is not is the
/// error.
pub fn check_outputs(ports: &[Port], present: &[bool]) -> (checked: Result<(), ModelError>)
    requires
        present@.len() == ports@.len(),
    ensures
        match checked {
            Ok(()) => forall|i: int| 0 <= i < present@.len() ==> #[trigger] present@[i],
            Err(ModelError::UnsupportedOutput(m)) => exists|i: int|
                {
                    &&& 0 <= i < present@.len()
                    &&& !(#[trigger] present@[i])
                    &&& m@ == ports@[i].name@ + " is missing from the result"@
                    &&& forall|j: int| 0 <= j < i ==> #[trigger] present@[j]
                },
            Err(_) => false,
        },
{
    let n: usize = ports.len();
    for i in 0..n
        invariant
            n == ports@.len(),
            n == present@.len(),
            forall|j: int| 0 <= j < i ==> #[trigger] present@[j],
    {
        if !present[i] {
            return Err(
                ModelError::UnsupportedOutput(
                    join2(ports[i].name.as_str(), " is missing from the result"),
                ),
            );
        }
    }
    Ok(())
}

/// What opening the runtime library found. Every outcome but the last names the library.
#[derive(Debug)]
pub enum Probe {
    /// It could not be opened, and why.
    NotOpened { target: String, error: String },
    /// It has no entry point.
    NoEntry { target: String },
    /// Its entry point gave nothing.
    NoBase { target: String },
    /// It does not offer the interface that is needed.
    TooOld { target: String, version: String, api: u32 },
    /// It can be used; its version.
    Usable { version: String },
}

/// Why a library cannot be used.
pub open spec fn probe_reason(probe: Probe) -> Seq<char> {
    match probe {
        Probe::NotOpened { target, error } => "could not open "@ + target@ + " ("@ + error@ + ")"@,
        Probe::NoEntry { target } => target@
            + " is a library, but not ONNX Runtime \u{2014} it exports no OrtGetApiBase"@,
        Probe::NoBase { target } => target@ + ": OrtGetApiBase returned null"@,
        Probe::TooOld { target, version, api } => target@ + " is ONNX Runtime "@ + version@
            + ", which is too old: EventCV needs API level "@ + decimal(api as nat)
            + " (ONNX Runtime 1."@ + decimal(api as nat) + " or newer)"@,
        Probe::Usable { version } => Seq::empty(),
    }
}

/// The version of the runtime, or why it cannot be used.
pub fn probe_runtime(probe: &Probe) -> (result: Result<String, String>)
    ensures
        match result {
            Ok(v) => probe matches Probe::Usable { version } && v@ == version@,
            Err(m) => !(probe is Usable) && m@ == probe_reason(*probe),
        },
{
    match probe {
        Probe::NotOpened { target, error } => Err(
            join5("could not open ", target.as_str(), " (", error.as_str(), ")"),
        ),
        Probe::NoEntry { target } => Err(
            join2(
                target.as_str(),
                " is a library, but not ONNX Runtime \u{2014} it exports no OrtGetApiBase",
            ),
        ),
        Probe::NoBase { target } => Err(
            join2(target.as_str(), ": OrtGetApiBase returned null"),
        ),
        Probe::TooOld { target, version, api } => {
            let level = decimal_string(*api as u64);
            let mut text = join5(
                target.as_str(),
                " is ONNX Runtime ",
                version.as_str(),
                ", which is too old: EventCV needs API level ",
                level.as_str(),
            );
            text.append(" (ONNX Runtime 1.");
            text.append(level.as_str());
            text.append(" or newer)");
            assert(text@ =~= probe_reason(*probe));
            Err(text)
        },
        Probe::Usable { version } => Ok(version.as_str().to_owned()),
    }
}

/// The version of the runtime, if there is one.
pub fn runtime_version(probe: &Probe) -> (version: Option<String>)
    ensures
        match version {
            Some(v) => probe matches Probe::Usable { version: w } && v@ == w@,
            None => !(probe is Usable),
        },
{
    match probe_runtime(probe) {
        Ok(version) => Some(version),
        Err(_) => None,
    }
}

/// What a user can do about a missing runtime.
pub open spec fn runtime_advice() -> Seq<char> {
    ". EventCV loads ONNX Runtime at run time instead of compiling it in, and the "@
        + "wheels ship a copy \u{2014} reinstall from PyPI (`pip install --force-reinstall eventcv`), "@
        + "install one alongside (`pip install eventcv[onnx]`, or conda's `onnxruntime-cpp`), or "@
        + "point ORT_DYLIB_PATH at a libonnxruntime you already have"@
}

/// Whether a model can be loaded at all.
pub fn ensure_runtime(probe: &Probe) -> (ready: Result<(), ModelError>)
    ensures
        match ready {
            Ok(()) => probe is Usable,
            Err(ModelError::RuntimeMissing(m)) => !(probe is Usable) && m@ == probe_reason(*probe)
                + runtime_advice(),
            Err(_) => false,
        },
{
    match probe_runtime(probe) {
        Ok(_) => Ok(()),
        Err(reason) => {
            let mut text = reason;
            let ghost start = text@;
            text.append(
                ". EventCV loads ONNX Runtime at run time instead of compiling it in, and the ",
            );
            text.append(
                "wheels ship a copy \u{2014} reinstall from PyPI (`pip install --force-reinstall eventcv`), ",
            );
            text.append(
                "install one alongside (`pip install eventcv[onnx]`, or conda's `onnxruntime-cpp`), or ",
            );
            text.append("point ORT_DYLIB_PATH at a libonnxruntime you already have");
            assert(text@ =~= start + runtime_advice());
            Err(ModelError::RuntimeMissing(text))
        },
    }
}

} // verus!
