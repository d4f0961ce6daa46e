//! What the supervisor knows of one service: how to launch it and in which
//! phase of its life it is.
use vstd::prelude::*;

use crate::env_map::EnvMap;

verus! {

/// The life phase of a supervised service.
#[derive(Clone, Copy, Debug, PartialEq, Eq, Structural)]
pub enum ServiceState {
    Stopped,
    Starting,
    Running,
    Crashed,
    Degraded,
}

/// How to launch one service.
pub struct ServiceDef {
    pub name: String,
    pub cmd: String,
    pub args: Vec<String>,
    pub env: EnvMap,
    /// HTTP port of the service; shown to the user, not used by the supervisor.
    pub port: Option<u16>,
}

/// The mathematical content of a `ServiceDef`.
pub struct ServiceDefView {
    pub name: Seq<char>,
    pub cmd: Seq<char>,
    pub args: Seq<Seq<char>>,
    pub env: Map<Seq<char>, Seq<char>>,
    pub port: Option<u16>,
}

/// The character sequences of a vector of strings.
pub open spec fn strings_view(v: Seq<String>) -> Seq<Seq<char>> {
    v.map_values(|s: String| s@)
}

impl View for ServiceDef {
    type V = ServiceDefView;

    open spec fn view(&self) -> ServiceDefView {
        ServiceDefView {
            name: self.name@,
            cmd: self.cmd@,
            args: strings_view(self.args@),
            env: self.env@,
            port: self.port,
        }
    }
}

impl ServiceDef {
    /// The environment map is well formed.
    pub open spec fn wf(&self) -> bool {
        self.env.wf()
    }
}

/// A copy of a vector of strings.
pub fn clone_strings(v: &Vec<String>) -> (r: Vec<String>)
    ensures
        strings_view(r@) == strings_view(v@),
{
    let mut r: Vec<String> = Vec::new();
    let mut i: usize = 0;
    while i < v.len()
        invariant
            i <= v@.len(),
            r@.len() == i,
            forall|j: int| 0 <= j < i ==> #[trigger] r@[j]@ == v@[j]@,
        decreases v@.len() - i,
    {
        r.push(v[i].clone());
        i = i + 1;
    }
    assert(strings_view(r@) =~= strings_view(v@));
    r
}

impl Clone for ServiceDef {
    fn clone(&self) -> (r: ServiceDef)
        ensures
            self.wf() ==> r.wf() && r@ == self@,
    {
        ServiceDef {
            name: self.name.clone(),
            cmd: self.cmd.clone(),
            args: clone_strings(&self.args),
            env: self.env.clone(),
            port: self.port,
        }
    }
}

} // verus!
