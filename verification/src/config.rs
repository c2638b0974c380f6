use vstd::prelude::*;

verus! {

/// The file paths the program remembers between runs.
#[derive(Debug)]
pub struct Config {
    pub template_path: String,
    pub history1_path: String,
    pub history2_path: String,
    pub output_path: String,
}

impl Default for Config {
    /// All paths empty.
    fn default() -> (r: Self)
        ensures
            r.template_path@ == Seq::<char>::empty(),
            r.history1_path@ == Seq::<char>::empty(),
            r.history2_path@ == Seq::<char>::empty(),
            r.output_path@ == Seq::<char>::empty(),
    {
        Config {
            template_path: String::new(),
            history1_path: String::new(),
            history2_path: String::new(),
            output_path: String::new(),
        }
    }
}

} // verus!
