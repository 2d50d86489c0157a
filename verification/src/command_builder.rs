//! A non-consuming builder describing an external command invocation: the
//! program, its arguments and its working directory.  Actually launching the
//! described command is left to the embedding application.

use vstd::prelude::*;

verus! {

/// A handle standing for a launched command.
#[derive(Debug)]
pub struct Child {}

/// A description of a command to run.
#[derive(Debug)]
pub struct ExampleCommand {
    pub program: String,
    pub args: Vec<String>,
    pub cwd: Option<String>,
}

impl ExampleCommand {
    /// The arguments gathered so far.
    pub open spec fn args_view(&self) -> Seq<Seq<char>> {
        self.args.deep_view()
    }

    /// The working directory, if one was chosen.
    pub open spec fn cwd_view(&self) -> Option<Seq<char>> {
        match self.cwd {
            Some(d) => Some(d@),
            None => None,
        }
    }

    /// A new description of `program`, with no arguments and no working
    /// directory.
    pub fn new(program: String) -> (r: ExampleCommand)
        ensures
            r.program@ == program@,
            r.args_view() == Seq::<Seq<char>>::empty(),
            r.cwd_view() is None,
    {
        let r = ExampleCommand { program, args: Vec::new(), cwd: None };
        proof {
            assert(r.args_view() =~= Seq::<Seq<char>>::empty());
        }
        r
    }

    /// Add an argument to pass to the program.
    pub fn arg(&mut self, arg: String)
        ensures
            final(self).program@ == old(self).program@,
            final(self).args_view() == old(self).args_view().push(arg@),
            final(self).cwd_view() == old(self).cwd_view(),
    {
        let ghost before = self.args.deep_view();
        self.args.push(arg);
        proof {
            assert(self.args.deep_view() =~= before.push(arg@));
        }
    }

    /// Add multiple arguments to pass to the program.
    pub fn args(&mut self, args: &[String])
        ensures
            final(self).program@ == old(self).program@,
            final(self).args_view() == old(self).args_view() + args.deep_view(),
            final(self).cwd_view() == old(self).cwd_view(),
    {
        let mut i: usize = 0;
        while i < args.len()
            invariant
                i <= args@.len(),
                self.program@ == old(self).program@,
                self.args_view() == old(self).args_view() + args.deep_view().take(i as int),
                self.cwd_view() == old(self).cwd_view(),
            decreases args@.len() - i,
        {
            let ghost before = self.args.deep_view();
            let a = args[i].clone();
            self.args.push(a);
            proof {
                assert(args.deep_view()[i as int] == args@[i as int]@);
                assert(self.args.deep_view() =~= before.push(args@[i as int]@));
                assert(self.args_view() =~= old(self).args_view() + args.deep_view().take(
                    i + 1,
                ));
            }
            i += 1;
        }
        proof {
            assert(args.deep_view().take(args@.len() as int) =~= args.deep_view());
        }
    }

    /// Set the working directory for the child process.
    pub fn current_dir(&mut self, dir: String)
        ensures
            final(self).program@ == old(self).program@,
            final(self).args_view() == old(self).args_view(),
            final(self).cwd_view() == Some(dir@),
    {
        self.cwd = Some(dir);
    }

    /// Hand the described command out for launching; the returned handle
    /// stands for the child process.
    pub fn spawn(&self) -> (r: Child)
    {
        Child {}
    }
}

} // verus!
