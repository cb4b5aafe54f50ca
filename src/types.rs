//! The type model (data types and shapes), variables and datasets.

use vstd::prelude::*;
use crate::error::GpError;
use crate::value::{Value, ValueView};

verus! {

/// Element type of a value.
#[derive(Copy, Clone, Debug, PartialEq, Eq, Hash, Structural)]
pub enum DataType {
    Integer,
    Float,
}

/// Shape of a value: a scalar, a vector of `n` elements or a `rows x cols` matrix.
#[derive(Copy, Clone, Debug, PartialEq, Eq, Hash, Structural)]
pub enum Shape {
    Scalar,
    Vector(usize),
    Matrix(usize, usize),
}

/// The sort of a value: its element type and its shape, dimensions included.
#[derive(Copy, Clone, Debug, PartialEq, Eq, Hash, Structural)]
pub struct TypeInfo {
    pub shape: Shape,
    pub data_type: DataType,
}

/// A declared input variable: a name and the type of its values.
#[derive(Clone, Debug)]
pub struct Variable {
    pub name: String,
    pub _type: TypeInfo,
}

/// The declared variables, in declaration order.
#[derive(Clone, Debug)]
pub struct VariableDefinitions {
    pub variables: Vec<Variable>,
}

/// The types of the declared variables.
pub open spec fn variable_types(vars: Seq<Variable>) -> Set<TypeInfo> {
    Set::new(|t: TypeInfo| exists|k: int| 0 <= k < vars.len() && (#[trigger] vars[k])._type == t)
}


impl VariableDefinitions {
    pub fn new(variables: Vec<Variable>) -> (r: Self)
        ensures
            r.variables@ == variables@,
    {
        VariableDefinitions { variables }
    }

    /// The declared names, in declaration order.
    pub fn get_variable_names(&self) -> (r: Vec<&str>)
        ensures
            r@.len() == self.variables@.len(),
            forall|i: int| 0 <= i < r@.len() ==> (#[trigger] r@[i])@ == self.variables@[i].name@,
    {
        let mut names: Vec<&str> = Vec::new();
        let mut i: usize = 0;
        while i < self.variables.len()
            invariant
                i <= self.variables@.len(),
                names@.len() == i,
                forall|k: int| 0 <= k < i ==> (#[trigger] names@[k])@ == self.variables@[k].name@,
            decreases self.variables@.len() - i,
        {
            names.push(self.variables[i].name.as_str());
            i += 1;
        }
        names
    }

    /// Whether `row` binds each declared name, binds no other name, and binds no name twice.
    pub fn validate_data_row(&self, row: &DataRow) -> (r: Result<(), GpError>)
        ensures
            r is Ok <==> binds_exactly(self.variables@, row.values@),
            r matches Err(e) ==> e == GpError::MalformedDataset,
    {
        let ghost vars = self.variables@;
        let ghost b = row.values@;
        let mut i: usize = 0;
        while i < self.variables.len()
            invariant
                i <= vars.len(),
                vars == self.variables@,
                b == row.values@,
                forall|k: int| 0 <= k < i ==> binds(b, (#[trigger] vars[k]).name@),
            decreases vars.len() - i,
        {
            if !row.binds_name(&self.variables[i].name) {
                return Err(GpError::MalformedDataset);
            }
            i += 1;
        }
        let mut j: usize = 0;
        while j < row.values.len()
            invariant
                j <= b.len(),
                vars == self.variables@,
                b == row.values@,
                forall|k: int| 0 <= k < vars.len() ==> binds(b, (#[trigger] vars[k]).name@),
                forall|k: int| 0 <= k < j ==> declares(vars, (#[trigger] b[k]).0@),
                forall|k: int, m: int| 0 <= k < m < j ==> (#[trigger] b[k]).0@ != (#[trigger] b[m]).0@,
            decreases b.len() - j,
        {
            if !self.declares_name(&row.values[j].0) {
                return Err(GpError::MalformedDataset);
            }
            let mut m: usize = 0;
            while m < j
                invariant
                    m <= j < b.len(),
                    b == row.values@,
                    forall|k: int| 0 <= k < m ==> (#[trigger] b[k]).0@ != b[j as int].0@,
                decreases j - m,
            {
                if row.values[m].0 == row.values[j].0 {
                    return Err(GpError::MalformedDataset);
                }
                m += 1;
            }
            j += 1;
        }
        Ok(())
    }

    /// Whether some variable is declared under `name`.
    fn declares_name(&self, name: &String) -> (r: bool)
        ensures
            r == declares(self.variables@, name@),
    {
        let mut i: usize = 0;
        while i < self.variables.len()
            invariant
                i <= self.variables@.len(),
                forall|k: int| 0 <= k < i ==> (#[trigger] self.variables@[k]).name@ != name@,
            decreases self.variables@.len() - i,
        {
            if self.variables[i].name == *name {
                return true;
            }
            i += 1;
        }
        false
    }
}

/// How a tree is grown.
///
/// `Full` places non-terminals at every depth above the last wherever the
/// grammar and the possibility table allow; `Grow` may also stop early with a
/// variable terminal.
#[derive(Clone, Copy, Debug, PartialEq, Eq, Structural)]
pub enum GenerationMethod {
    Full,
    Grow,
}

/// Some variable of `vars` is named `name`.
pub open spec fn declares(vars: Seq<Variable>, name: Seq<char>) -> bool {
    exists|k: int| 0 <= k < vars.len() && (#[trigger] vars[k]).name@ == name
}

/// Some binding of `b` is for `name`.
pub open spec fn binds(b: Seq<(String, Value)>, name: Seq<char>) -> bool {
    exists|k: int| 0 <= k < b.len() && (#[trigger] b[k]).0@ == name
}

/// `i` is the first binding of `b` for `name`.
pub open spec fn first_binding(b: Seq<(String, Value)>, name: Seq<char>, i: int) -> bool {
    &&& 0 <= i < b.len()
    &&& b[i].0@ == name
    &&& forall|k: int| 0 <= k < i ==> (#[trigger] b[k]).0@ != name
}

/// The value that `b` binds to `name`: that of its first binding for it.
pub open spec fn lookup(b: Seq<(String, Value)>, name: Seq<char>) -> Option<ValueView> {
    if binds(b, name) {
        let i = choose|i: int| first_binding(b, name, i);
        Some(b[i].1@)
    } else {
        None
    }
}

/// `b` binds every declared name, only declared names, and no name twice.
pub open spec fn binds_exactly(vars: Seq<Variable>, b: Seq<(String, Value)>) -> bool {
    &&& forall|k: int| 0 <= k < vars.len() ==> binds(b, (#[trigger] vars[k]).name@)
    &&& forall|k: int| 0 <= k < b.len() ==> declares(vars, (#[trigger] b[k]).0@)
    &&& forall|k: int, m: int| 0 <= k < m < b.len() ==> (#[trigger] b[k]).0@ != (#[trigger] b[m]).0@
}

/// The first binding for a name is unique, so [`lookup`] is determined by it.
pub proof fn lemma_lookup_first(b: Seq<(String, Value)>, name: Seq<char>, i: int)
    requires
        first_binding(b, name, i),
    ensures
        lookup(b, name) == Some(b[i].1@),
{
    assert(binds(b, name));
    let j = choose|j: int| first_binding(b, name, j);
    if j < i {
        assert(b[j].0@ != name);
    }
    if i < j {
        assert(b[i].0@ != name);
    }
}

/// A bound name has a first binding.
pub proof fn lemma_first_binding_exists(b: Seq<(String, Value)>, name: Seq<char>)
    requires
        binds(b, name),
    ensures
        exists|i: int| first_binding(b, name, i),
    decreases b.len(),
{
    let prev = b.drop_last();
    if binds(prev, name) {
        lemma_first_binding_exists(prev, name);
        let i = choose|i: int| first_binding(prev, name, i);
        assert forall|k: int| 0 <= k < i implies (#[trigger] b[k]).0@ != name by {
            assert(prev[k] == b[k]);
        }
        assert(first_binding(b, name, i));
    } else {
        let last = b.len() - 1;
        assert forall|k: int| 0 <= k < last implies (#[trigger] b[k]).0@ != name by {
            assert(prev[k] == b[k]);
        }
        let j = choose|j: int| 0 <= j < b.len() && (#[trigger] b[j]).0@ == name;
        if j < last {
            assert(prev[j] == b[j]);
        }
        assert(first_binding(b, name, last));
    }
}

/// One dataset row: a value for each declared variable, by name.
#[derive(Debug)]
pub struct DataRow {
    pub values: Vec<(String, Value)>,
}

impl DataRow {
    /// Binds the values, in order, to the declared names; fails unless there is
    /// exactly one value per declared variable.
    pub fn new(variable_defs: &VariableDefinitions, values: Vec<Value>) -> (r: Result<Self, GpError>)
        ensures
            values@.len() != variable_defs.variables@.len() ==> r == Err::<Self, GpError>(GpError::MalformedDataset),
            values@.len() == variable_defs.variables@.len() ==> r is Ok,
            r matches Ok(row) ==> {
                &&& row.values@.len() == values@.len()
                &&& forall|i: int| 0 <= i < values@.len() ==> {
                    &&& (#[trigger] row.values@[i]).0@ == variable_defs.variables@[i].name@
                    &&& row.values@[i].1@ == values@[i]@
                }
            },
    {
        if values.len() != variable_defs.variables.len() {
            return Err(GpError::MalformedDataset);
        }
        let ghost orig = values@;
        let mut rest = values;
        let mut row_values: Vec<(String, Value)> = Vec::new();
        let mut i: usize = 0;
        while i < variable_defs.variables.len()
            invariant
                i <= variable_defs.variables@.len(),
                orig.len() == variable_defs.variables@.len(),
                rest@ == orig.subrange(i as int, orig.len() as int),
                row_values@.len() == i,
                forall|k: int| 0 <= k < i ==> {
                    &&& (#[trigger] row_values@[k]).0@ == variable_defs.variables@[k].name@
                    &&& row_values@[k].1@ == orig[k]@
                },
            decreases variable_defs.variables@.len() - i,
        {
            let v = rest.remove(0);
            row_values.push((variable_defs.variables[i].name.clone(), v));
            assert(rest@ =~= orig.subrange(i + 1, orig.len() as int));
            i += 1;
        }
        Ok(DataRow { values: row_values })
    }

    /// Takes explicit (name, value) bindings and checks them against the declarations.
    pub fn from_map(variable_defs: &VariableDefinitions, values: Vec<(String, Value)>) -> (r: Result<Self, GpError>)
        ensures
            r is Ok <==> binds_exactly(variable_defs.variables@, values@),
            r matches Ok(row) ==> row.values@ == values@,
            r matches Err(e) ==> e == GpError::MalformedDataset,
    {
        let row = DataRow { values };
        match variable_defs.validate_data_row(&row) {
            Ok(()) => Ok(row),
            Err(e) => Err(e),
        }
    }

    /// Whether the row binds `name`.
    pub fn binds_name(&self, name: &String) -> (r: bool)
        ensures
            r == binds(self.values@, name@),
    {
        let mut i: usize = 0;
        while i < self.values.len()
            invariant
                i <= self.values@.len(),
                forall|k: int| 0 <= k < i ==> (#[trigger] self.values@[k]).0@ != name@,
            decreases self.values@.len() - i,
        {
            if self.values[i].0 == *name {
                return true;
            }
            i += 1;
        }
        false
    }

    /// The value bound to `name`, if any.
    pub fn get(&self, name: &String) -> (r: Option<&Value>)
        ensures
            match r {
                Some(v) => lookup(self.values@, name@) == Some(v@),
                None => lookup(self.values@, name@) is None,
            },
    {
        let mut i: usize = 0;
        while i < self.values.len()
            invariant
                i <= self.values@.len(),
                forall|k: int| 0 <= k < i ==> (#[trigger] self.values@[k]).0@ != name@,
            decreases self.values@.len() - i,
        {
            if self.values[i].0 == *name {
                proof {
                    lemma_lookup_first(self.values@, name@, i as int);
                }
                return Some(&self.values[i].1);
            }
            i += 1;
        }
        None
    }
}

/// One row of a dataset together with its target.
#[derive(Debug)]
pub enum EvalInput<'a> {
    Data(&'a DataRow, &'a i64),
}

/// Rows of variable values and the target value of each row.
#[derive(Debug)]
pub struct Dataset {
    pub features: Vec<DataRow>,
    pub targets: Vec<i64>,
}

impl Dataset {
    /// As many rows as targets.
    pub open spec fn wf(&self) -> bool {
        self.features@.len() == self.targets@.len()
    }

    /// Every row binds exactly the names of `vars`.
    pub open spec fn rows_bind_exactly(&self, vars: Seq<Variable>) -> bool {
        forall|k: int| 0 <= k < self.features@.len() ==> binds_exactly(vars, (#[trigger] self.features@[k]).values@)
    }

    /// Whether every row binds exactly the declared names.
    pub fn validate_rows(&self, variable_defs: &VariableDefinitions) -> (r: Result<(), GpError>)
        ensures
            r is Ok <==> self.rows_bind_exactly(variable_defs.variables@),
            r matches Err(e) ==> e == GpError::MalformedDataset,
    {
        let mut k: usize = 0;
        while k < self.features.len()
            invariant
                k <= self.features@.len(),
                forall|j: int| 0 <= j < k ==> binds_exactly(variable_defs.variables@, (#[trigger] self.features@[j]).values@),
            decreases self.features@.len() - k,
        {
            if variable_defs.validate_data_row(&self.features[k]).is_err() {
                return Err(GpError::MalformedDataset);
            }
            k += 1;
        }
        Ok(())
    }

    /// Pairs rows with targets; fails when their counts differ.
    pub fn new(features: Vec<DataRow>, targets: Vec<i64>) -> (r: Result<Self, GpError>)
        ensures
            features@.len() != targets@.len() ==> r == Err::<Self, GpError>(GpError::MalformedDataset),
            r matches Ok(d) ==> d.features@ == features@ && d.targets@ == targets@ && d.wf(),
            features@.len() == targets@.len() ==> r is Ok,
    {
        if features.len() != targets.len() {
            return Err(GpError::MalformedDataset);
        }
        Ok(Dataset { features, targets })
    }

    /// Row `index` and its target.
    pub fn sample_row(&self, index: usize) -> (r: EvalInput)
        requires
            index < self.features@.len(),
            index < self.targets@.len(),
        ensures
            r matches EvalInput::Data(row, target) && row == self.features@[index as int]
                && *target == self.targets@[index as int],
    {
        EvalInput::Data(&self.features[index], &self.targets[index])
    }
}

} // verus!
