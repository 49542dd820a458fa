use vstd::prelude::*;

verus! {

/// The dataset generators that have been hardcoded.
#[derive(Clone, Copy, Debug, PartialEq, Eq)]
pub enum DatasetGenerators {
    /// Employees and departments.
    EmpsDepts,
}

impl DatasetGenerators {
    /// The generator that goes by `name`, if there is one.
    pub fn create_from_name(name: &str) -> (r: Option<DatasetGenerators>)
        ensures
            r == if name@ == "emps_depts"@ {
                Some(DatasetGenerators::EmpsDepts)
            } else {
                None::<DatasetGenerators>
            },
    {
        let given = name.to_owned();
        let known = "emps_depts".to_owned();
        if given == known {
            Some(DatasetGenerators::EmpsDepts)
        } else {
            None
        }
    }
}

} // verus!
