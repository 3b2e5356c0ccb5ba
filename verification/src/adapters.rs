//! The choice of a network adapter by its name.
use crate::text;
use crate::text::views;
use vstd::prelude::*;
use vstd::string::*;

verus! {

/// Who looks for an adapter. Each tells in words of its own what is missing.
#[derive(Clone, Copy, PartialEq, Eq, Structural, Debug)]
pub enum Seeker {
    /// The client library.
    Client,
    /// The C interface of a worker.
    Worker,
    /// The benchmark.
    Bench,
}

/// The adapter at this place is the first of the name.
pub open spec fn is_first_of_name(names: Seq<Seq<char>>, wanted: Seq<char>, i: int) -> bool {
    &&& 0 <= i < names.len()
    &&& names[i] == wanted
    &&& forall|k: int| 0 <= k < i ==> (#[trigger] names[k]) != wanted
}

impl Seeker {
    /// What is said where the list of adapters could not be had.
    pub open spec fn no_list(self) -> Seq<char> {
        match self {
            Seeker::Client => "no RDMA device found"@,
            Seeker::Worker => "ibv_get_device_list returned null"@,
            Seeker::Bench => "no RDMA device"@,
        }
    }

    /// What is said where the list holds no adapter of the name.
    pub open spec fn no_such(self, wanted: Seq<char>) -> Seq<char> {
        match self {
            Seeker::Client => "RDMA device '"@ + wanted + "' not found"@,
            _ => "device "@ + wanted + " not found"@,
        }
    }
}

fn first_of_name(names: &Vec<String>, wanted: &str) -> (r: Option<usize>)
    ensures
        match r {
            Some(i) => is_first_of_name(views(names@), wanted@, i as int),
            None => !views(names@).contains(wanted@),
        },
{
    let ghost all = views(names@);
    let mut i: usize = 0;
    while i < names.len()
        invariant
            i <= names.len(),
            all == views(names@),
            forall|k: int| 0 <= k < i ==> (#[trigger] all[k]) != wanted@,
        decreases names.len() - i,
    {
        proof {
            assert(all[i as int] == names@[i as int]@);
        }
        if text::same(names[i].as_str(), wanted) {
            return Some(i);
        }
        i = i + 1;
    }
    None
}

/// Finds the first adapter of a name.
pub fn find_device(names: &Vec<String>, wanted: &str) -> (r: Result<usize, String>)
    ensures
        match r {
            Ok(i) => is_first_of_name(views(names@), wanted@, i as int),
            Err(e) => !views(names@).contains(wanted@) && e@ == "device "@ + wanted@
                + " not found"@,
        },
{
    match first_of_name(names, wanted) {
        Some(i) => Ok(i),
        None => {
            let mut out = "device ".to_owned();
            out.append(wanted);
            out.append(" not found");
            Err(out)
        },
    }
}

/// Chooses the first adapter of a name from the list that the system gave, where it gave one.
/// The client library also tells an empty list from one without the name.
pub fn select_device(listed: &Option<Vec<String>>, wanted: &str, seeker: Seeker) -> (r: Result<
    usize,
    String,
>)
    ensures
        match *listed {
            None => r is Err && r->Err_0@ == seeker.no_list(),
            Some(names) => if seeker == Seeker::Client && names@.len() == 0 {
                r is Err && r->Err_0@ == seeker.no_list()
            } else {
                match r {
                    Ok(i) => is_first_of_name(views(names@), wanted@, i as int),
                    Err(e) => !views(names@).contains(wanted@) && e@ == seeker.no_such(wanted@),
                }
            },
        },
{
    let names = match listed {
        Some(names) => names,
        None => {
            return Err(
                match seeker {
                    Seeker::Client => "no RDMA device found".to_owned(),
                    Seeker::Worker => "ibv_get_device_list returned null".to_owned(),
                    Seeker::Bench => "no RDMA device".to_owned(),
                },
            );
        },
    };
    match seeker {
        Seeker::Client => {
            if names.len() == 0 {
                return Err("no RDMA device found".to_owned());
            }
            match first_of_name(names, wanted) {
                Some(i) => Ok(i),
                None => {
                    let mut out = "RDMA device '".to_owned();
                    out.append(wanted);
                    out.append("' not found");
                    Err(out)
                },
            }
        },
        _ => find_device(names, wanted),
    }
}

} // verus!
