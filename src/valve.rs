use vstd::prelude::*;

verus! {

/// A valve: its name, the pressure it releases per unit of time once open,
/// and the time it takes to open it.
pub struct Valve {
    pub name: String,
    pub flow_rate: u32,
    pub turn_time: u32,
}

/// An agent's position and remaining time.
pub struct Walker<Time, Location> {
    pub time: Time,
    pub location: Location,
}

/// A network of valves. `dist[i][j]` is the length of the tunnel from valve
/// `i` to valve `j`, if there is one. Node identifiers are positions in
/// `valves` and never change; a removed valve keeps its place and loses its
/// tunnels.
pub struct Network {
    pub valves: Vec<Valve>,
    pub dist: Vec<Vec<Option<u32>>>,
}

impl Network {
    pub open spec fn size(&self) -> nat {
        self.valves@.len()
    }

    /// Every row of the distance matrix has one entry per valve.
    pub open spec fn wf(&self) -> bool {
        &&& self.dist@.len() == self.valves@.len()
        &&& forall|i: int| 0 <= i < self.dist@.len() ==> #[trigger] self.dist@[i]@.len() == self.valves@.len()
    }

    pub open spec fn edge(&self, i: int, j: int) -> Option<u32> {
        self.dist@[i]@[j]
    }

    /// The tunnel lengths as a matrix of mathematical sequences.
    pub open spec fn matrix(&self) -> Seq<Seq<Option<u32>>> {
        self.dist@.map_values(|r: Vec<Option<u32>>| r@)
    }

    pub open spec fn flow(&self, i: int) -> nat {
        self.valves@[i].flow_rate as nat
    }

    pub open spec fn turn(&self, i: int) -> nat {
        self.valves@[i].turn_time as nat
    }
}

/// Why a list of valve records does not describe a network.
#[derive(Debug, PartialEq, Eq, Structural)]
pub enum BuildError {
    /// Two records carry the same name.
    DuplicateName,
    /// A record names a neighbour that no record describes.
    UnknownNeighbor,
}

/// A valve record: its name, its flow rate and the names of its neighbours.
pub type Record = (String, u32, Vec<String>);

pub open spec fn names_distinct(inputs: Seq<Record>) -> bool {
    forall|a: int, b: int| 0 <= a < b < inputs.len() ==> inputs[a].0@ != inputs[b].0@
}

/// Whether some record is named `name`.
pub open spec fn has_name(inputs: Seq<Record>, name: Seq<char>) -> bool {
    exists|j: int| 0 <= j < inputs.len() && inputs[j].0@ == name
}

pub open spec fn neighbors_known(inputs: Seq<Record>) -> bool {
    forall|i: int, k: int|
        0 <= i < inputs.len() && 0 <= k < inputs[i].2@.len() ==> has_name(inputs, #[trigger] inputs[i].2@[k]@)
}

/// Whether record `i` lists record `j` among its neighbours.
pub open spec fn declares(inputs: Seq<Record>, i: int, j: int) -> bool {
    exists|k: int| 0 <= k < inputs[i].2@.len() && #[trigger] inputs[i].2@[k]@ == inputs[j].0@
}

/// Tunnels run both ways: records `i` and `j` are joined where either lists
/// the other.
pub open spec fn joined(inputs: Seq<Record>, i: int, j: int) -> bool {
    declares(inputs, i, j) || declares(inputs, j, i)
}

impl Network {
    /// The identifier of the valve named `name`, if there is one.
    pub fn node_of(&self, name: &String) -> (r: Option<usize>)
        ensures
            match r {
                Some(i) => i < self.size() && self.valves@[i as int].name@ == name@,
                None => forall|i: int| 0 <= i < self.size() ==> self.valves@[i].name@ != name@,
            },
    {
        let mut i: usize = 0;
        while i < self.valves.len()
            invariant
                i <= self.size(),
                forall|a: int| 0 <= a < i ==> self.valves@[a].name@ != name@,
            decreases self.valves.len() - i,
        {
            if self.valves[i].name == *name {
                return Some(i);
            }
            i += 1;
        }
        None
    }
}

fn find_record(inputs: &Vec<Record>, name: &String) -> (r: bool)
    ensures
        r == has_name(inputs@, name@),
{
    let mut j: usize = 0;
    while j < inputs.len()
        invariant
            j <= inputs@.len(),
            forall|a: int| 0 <= a < j ==> inputs@[a].0@ != name@,
        decreases inputs.len() - j,
    {
        if inputs[j].0 == *name {
            return true;
        }
        j += 1;
    }
    false
}

fn lists_neighbor(inputs: &Vec<Record>, i: usize, j: usize) -> (r: bool)
    requires
        i < inputs@.len(),
        j < inputs@.len(),
    ensures
        r == declares(inputs@, i as int, j as int),
{
    let neighbors = &inputs[i].2;
    let mut k: usize = 0;
    while k < neighbors.len()
        invariant
            neighbors == inputs@[i as int].2,
            j < inputs@.len(),
            k <= neighbors@.len(),
            forall|c: int| 0 <= c < k ==> neighbors@[c]@ != inputs@[j as int].0@,
        decreases neighbors.len() - k,
    {
        if neighbors[k] == inputs[j].0 {
            return true;
        }
        k += 1;
    }
    false
}

/// Builds the network that a list of records describes: one valve per
/// record, in order, each taking `turn_time` to open, and a tunnel of
/// `tunnel_length` both ways between each pair of records where either lists
/// the other. Fails where two records share a name, or else where a record
/// lists a name that no record carries.
pub fn create_valve_graph(inputs: Vec<Record>, tunnel_length: u32, turn_time: u32) -> (r: Result<
    Network,
    BuildError,
>)
    ensures
        r == Err::<Network, BuildError>(BuildError::DuplicateName) <==> !names_distinct(inputs@),
        r == Err::<Network, BuildError>(BuildError::UnknownNeighbor) <==> names_distinct(inputs@)
            && !neighbors_known(inputs@),
        r matches Ok(g) ==> {
            &&& g.wf()
            &&& g.size() == inputs@.len()
            &&& forall|i: int|
                0 <= i < inputs@.len() ==> {
                    &&& (#[trigger] g.valves@[i]).name@ == inputs@[i].0@
                    &&& g.valves@[i].flow_rate == inputs@[i].1
                    &&& g.valves@[i].turn_time == turn_time
                }
            &&& forall|i: int, j: int|
                0 <= i < inputs@.len() && 0 <= j < inputs@.len() ==> #[trigger] g.edge(i, j) == if joined(
                    inputs@,
                    i,
                    j,
                ) {
                    Some(tunnel_length)
                } else {
                    None
                }
        },
{
    let n = inputs.len();
    let mut a: usize = 0;
    while a < n
        invariant
            n == inputs@.len(),
            a <= n,
            forall|x: int, y: int| 0 <= x < a && x < y < n ==> inputs@[x].0@ != inputs@[y].0@,
        decreases n - a,
    {
        let mut b: usize = a + 1;
        while b < n
            invariant
                n == inputs@.len(),
                a < n,
                a < b <= n,
                forall|x: int, y: int| 0 <= x < a && x < y < n ==> inputs@[x].0@ != inputs@[y].0@,
                forall|y: int| a < y < b ==> inputs@[a as int].0@ != inputs@[y].0@,
            decreases n - b,
        {
            if inputs[a].0 == inputs[b].0 {
                return Err(BuildError::DuplicateName);
            }
            b += 1;
        }
        a += 1;
    }
    let mut i: usize = 0;
    while i < n
        invariant
            n == inputs@.len(),
            names_distinct(inputs@),
            i <= n,
            forall|x: int, k: int|
                0 <= x < i && 0 <= k < inputs@[x].2@.len() ==> has_name(inputs@, #[trigger] inputs@[x].2@[k]@),
        decreases n - i,
    {
        let mut k: usize = 0;
        while k < inputs[i].2.len()
            invariant
                n == inputs@.len(),
                names_distinct(inputs@),
                i < n,
                k <= inputs@[i as int].2@.len(),
                forall|x: int, c: int|
                    0 <= x < i && 0 <= c < inputs@[x].2@.len() ==> has_name(inputs@, #[trigger] inputs@[x].2@[c]@),
                forall|c: int| 0 <= c < k ==> has_name(inputs@, #[trigger] inputs@[i as int].2@[c]@),
            decreases inputs@[i as int].2@.len() - k,
        {
            if !find_record(&inputs, &inputs[i].2[k]) {
                return Err(BuildError::UnknownNeighbor);
            }
            k += 1;
        }
        i += 1;
    }
    let mut valves: Vec<Valve> = Vec::new();
    let mut dist: Vec<Vec<Option<u32>>> = Vec::new();
    let mut i: usize = 0;
    while i < n
        invariant
            n == inputs@.len(),
            i <= n,
            valves@.len() == i,
            dist@.len() == i,
            forall|x: int|
                0 <= x < i ==> {
                    &&& (#[trigger] valves@[x]).name@ == inputs@[x].0@
                    &&& valves@[x].flow_rate == inputs@[x].1
                    &&& valves@[x].turn_time == turn_time
                },
            forall|x: int| 0 <= x < i ==> (#[trigger] dist@[x])@.len() == n,
            forall|x: int, y: int|
                0 <= x < i && 0 <= y < n ==> #[trigger] dist@[x]@[y] == if joined(inputs@, x, y) {
                    Some(tunnel_length)
                } else {
                    None
                },
        decreases n - i,
    {
        let mut row: Vec<Option<u32>> = Vec::new();
        let mut j: usize = 0;
        while j < n
            invariant
                n == inputs@.len(),
                i < n,
                j <= n,
                row@.len() == j,
                forall|y: int|
                    0 <= y < j ==> #[trigger] row@[y] == if joined(inputs@, i as int, y) {
                        Some(tunnel_length)
                    } else {
                        None
                    },
            decreases n - j,
        {
            if lists_neighbor(&inputs, i, j) || lists_neighbor(&inputs, j, i) {
                row.push(Some(tunnel_length));
            } else {
                row.push(None);
            }
            j += 1;
        }
        valves.push(Valve { name: inputs[i].0.clone(), flow_rate: inputs[i].1, turn_time });
        dist.push(row);
        i += 1;
    }
    Ok(Network { valves, dist })
}

} // verus!
