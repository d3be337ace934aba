//! Job configuration: a builder that checks the configuration, and the
//! validated job it produces.
//!
//! The builder records the types of the mapper, reducer and partitioner it is
//! given; `NoMapper` and `NoReducer` stand in until they are set.

use std::sync::Arc;

use vstd::prelude::*;

use crate::error::MapReduceError;
use crate::mapper::Mapper;
use crate::partitioner::{DefaultPartitioner, Partitioner};
use crate::reducer::Reducer;
use crate::text::{blank, is_blank, text};
use crate::word_count::views;

verus! {

/// The mapper slot of a builder that has not been given a mapper.
pub struct NoMapper;

/// The reducer slot of a builder that has not been given a reducer.
pub struct NoReducer;

/// What a job builder holds so far.
pub struct JobBuilderView<M, R, P> {
    pub name: Option<Seq<char>>,
    pub input_paths: Seq<Seq<char>>,
    pub output_path: Option<Seq<char>>,
    pub mapper: Option<M>,
    pub reducer: Option<R>,
    pub partitioner: Option<P>,
    pub num_map_workers: usize,
    pub num_reduce_workers: usize,
    pub num_reducers: usize,
}

/// A validated job. A partitioner of `None` stands for the default hash partitioner.
pub struct JobView<M, R, P> {
    pub name: Seq<char>,
    pub input_paths: Seq<Seq<char>>,
    pub output_path: Seq<char>,
    pub mapper: M,
    pub reducer: R,
    pub partitioner: Option<P>,
    pub num_map_workers: usize,
    pub num_reduce_workers: usize,
    pub num_reducers: usize,
}

/// What every job satisfies.
pub open spec fn job_valid<M, R, P>(j: JobView<M, R, P>) -> bool {
    &&& !is_blank(j.name)
    &&& j.input_paths.len() > 0
    &&& j.num_map_workers > 0
    &&& j.num_reduce_workers > 0
    &&& j.num_reducers > 0
}

/// The builder that `Job::builder` and `JobBuilder::default` start from.
pub open spec fn default_builder() -> JobBuilderView<NoMapper, NoReducer, DefaultPartitioner> {
    JobBuilderView {
        name: None,
        input_paths: Seq::empty(),
        output_path: None,
        mapper: None,
        reducer: None,
        partitioner: None,
        num_map_workers: 1,
        num_reduce_workers: 1,
        num_reducers: 1,
    }
}

/// The outcome of `build`: the first rule the configuration breaks, in the order
/// checked, with its message; or the job.
pub open spec fn build_outcome<M, R, P>(b: JobBuilderView<M, R, P>) -> Result<
    JobView<M, R, P>,
    Seq<char>,
> {
    if b.name is None || is_blank(b.name->0) {
        Err("job name must not be empty"@)
    } else if b.input_paths.len() == 0 {
        Err("at least one input is required"@)
    } else if b.output_path is None {
        Err("output path is required"@)
    } else if b.mapper is None {
        Err("mapper is required"@)
    } else if b.reducer is None {
        Err("reducer is required"@)
    } else if b.num_map_workers == 0 {
        Err("number of map workers must be greater than zero"@)
    } else if b.num_reduce_workers == 0 {
        Err("number of reduce workers must be greater than zero"@)
    } else if b.num_reducers == 0 {
        Err("number of reducers must be greater than zero"@)
    } else {
        Ok(
            JobView {
                name: b.name->0,
                input_paths: b.input_paths,
                output_path: b.output_path->0,
                mapper: b.mapper->0,
                reducer: b.reducer->0,
                partitioner: b.partitioner,
                num_map_workers: b.num_map_workers,
                num_reduce_workers: b.num_reduce_workers,
                num_reducers: b.num_reducers,
            },
        )
    }
}

pub struct Job<M, R, P> {
    name: String,
    input_paths: Vec<String>,
    output_path: String,
    mapper: M,
    reducer: R,
    partitioner: Option<P>,
    num_map_workers: usize,
    num_reduce_workers: usize,
    num_reducers: usize,
}

impl<M, R, P> View for Job<M, R, P> {
    type V = JobView<M, R, P>;

    closed spec fn view(&self) -> JobView<M, R, P> {
        JobView {
            name: self.name@,
            input_paths: views(self.input_paths@),
            output_path: self.output_path@,
            mapper: self.mapper,
            reducer: self.reducer,
            partitioner: self.partitioner,
            num_map_workers: self.num_map_workers,
            num_reduce_workers: self.num_reduce_workers,
            num_reducers: self.num_reducers,
        }
    }
}

impl Job<NoMapper, NoReducer, DefaultPartitioner> {
    pub fn builder() -> (r: JobBuilder<NoMapper, NoReducer, DefaultPartitioner>)
        ensures
            r@ == default_builder(),
    {
        JobBuilder::default()
    }
}

impl<M, R, P> Job<M, R, P> {
    #[verifier::type_invariant]
    spec fn well_formed(self) -> bool {
        job_valid(self@)
    }

    /// The job's name, which is never blank.
    pub fn name(&self) -> (r: &str)
        ensures
            r@ == self@.name,
            !is_blank(r@),
    {
        proof {
            use_type_invariant(self);
        }
        self.name.as_str()
    }

    /// The job's input paths, of which there is at least one.
    pub fn input_paths(&self) -> (r: &[String])
        ensures
            views(r@) == self@.input_paths,
            r@.len() > 0,
    {
        proof {
            use_type_invariant(self);
        }
        self.input_paths.as_slice()
    }

    pub fn output_path(&self) -> (r: &str)
        ensures
            r@ == self@.output_path,
    {
        self.output_path.as_str()
    }

    pub fn mapper(&self) -> (r: &M)
        ensures
            *r == self@.mapper,
    {
        &self.mapper
    }

    pub fn reducer(&self) -> (r: &R)
        ensures
            *r == self@.reducer,
    {
        &self.reducer
    }

    /// The configured partitioner; `None` when the job uses the default one.
    pub fn partitioner(&self) -> (r: Option<&P>)
        ensures
            match self@.partitioner {
                Some(p) => r == Some(&p),
                None => r is None,
            },
    {
        match &self.partitioner {
            Some(p) => Some(p),
            None => None,
        }
    }

    pub fn num_map_workers(&self) -> (r: usize)
        ensures
            r == self@.num_map_workers,
            r > 0,
    {
        proof {
            use_type_invariant(self);
        }
        self.num_map_workers
    }

    pub fn num_reduce_workers(&self) -> (r: usize)
        ensures
            r == self@.num_reduce_workers,
            r > 0,
    {
        proof {
            use_type_invariant(self);
        }
        self.num_reduce_workers
    }

    pub fn num_reducers(&self) -> (r: usize)
        ensures
            r == self@.num_reducers,
            r > 0,
    {
        proof {
            use_type_invariant(self);
        }
        self.num_reducers
    }
}

pub struct JobBuilder<M, R, P> {
    name: Option<String>,
    input_paths: Vec<String>,
    output_path: Option<String>,
    mapper: Option<M>,
    reducer: Option<R>,
    partitioner: Option<P>,
    num_map_workers: usize,
    num_reduce_workers: usize,
    num_reducers: usize,
}

pub open spec fn option_view(s: Option<String>) -> Option<Seq<char>> {
    match s {
        Some(v) => Some(v@),
        None => None,
    }
}

impl<M, R, P> View for JobBuilder<M, R, P> {
    type V = JobBuilderView<M, R, P>;

    closed spec fn view(&self) -> JobBuilderView<M, R, P> {
        JobBuilderView {
            name: option_view(self.name),
            input_paths: views(self.input_paths@),
            output_path: option_view(self.output_path),
            mapper: self.mapper,
            reducer: self.reducer,
            partitioner: self.partitioner,
            num_map_workers: self.num_map_workers,
            num_reduce_workers: self.num_reduce_workers,
            num_reducers: self.num_reducers,
        }
    }
}

impl Default for JobBuilder<NoMapper, NoReducer, DefaultPartitioner> {
    fn default() -> (r: Self)
        ensures
            r@ == default_builder(),
    {
        let r = JobBuilder {
            name: None,
            input_paths: Vec::new(),
            output_path: None,
            mapper: None,
            reducer: None,
            partitioner: None,
            num_map_workers: 1,
            num_reduce_workers: 1,
            num_reducers: 1,
        };
        assert(views(r.input_paths@) =~= Seq::empty());
        r
    }
}

impl<M, R, P> JobBuilder<M, R, P> {
    pub fn name(self, name: &str) -> (r: Self)
        ensures
            r@ == (JobBuilderView { name: Some(name@), ..self@ }),
    {
        JobBuilder { name: Some(String::from_str(name)), ..self }
    }

    pub fn input_path(self, path: &str) -> (r: Self)
        ensures
            r@ == (JobBuilderView { input_paths: self@.input_paths.push(path@), ..self@ }),
    {
        let mut b = self;
        b.input_paths.push(String::from_str(path));
        assert(views(b.input_paths@) =~= views(self.input_paths@).push(path@));
        b
    }

    pub fn input_paths(self, paths: Vec<String>) -> (r: Self)
        ensures
            r@ == (JobBuilderView { input_paths: self@.input_paths + views(paths@), ..self@ }),
    {
        let mut b = self;
        let mut more = paths;
        let ghost added = more@;
        b.input_paths.append(&mut more);
        assert(views(b.input_paths@) =~= views(self.input_paths@) + views(added));
        b
    }

    pub fn output_path(self, path: &str) -> (r: Self)
        ensures
            r@ == (JobBuilderView { output_path: Some(path@), ..self@ }),
    {
        JobBuilder { output_path: Some(String::from_str(path)), ..self }
    }

    pub fn mapper<M2: Mapper>(self, mapper: M2) -> (r: JobBuilder<M2, R, P>)
        ensures
            r@ == (JobBuilderView {
                name: self@.name,
                input_paths: self@.input_paths,
                output_path: self@.output_path,
                mapper: Some(mapper),
                reducer: self@.reducer,
                partitioner: self@.partitioner,
                num_map_workers: self@.num_map_workers,
                num_reduce_workers: self@.num_reduce_workers,
                num_reducers: self@.num_reducers,
            }),
    {
        JobBuilder {
            name: self.name,
            input_paths: self.input_paths,
            output_path: self.output_path,
            mapper: Some(mapper),
            reducer: self.reducer,
            partitioner: self.partitioner,
            num_map_workers: self.num_map_workers,
            num_reduce_workers: self.num_reduce_workers,
            num_reducers: self.num_reducers,
        }
    }

    /// Sets a mapper that is shared with other owners.
    pub fn mapper_arc<M2: Mapper + ?Sized>(self, mapper: Arc<M2>) -> (r: JobBuilder<
        Arc<M2>,
        R,
        P,
    >)
        ensures
            r@ == (JobBuilderView {
                name: self@.name,
                input_paths: self@.input_paths,
                output_path: self@.output_path,
                mapper: Some(mapper),
                reducer: self@.reducer,
                partitioner: self@.partitioner,
                num_map_workers: self@.num_map_workers,
                num_reduce_workers: self@.num_reduce_workers,
                num_reducers: self@.num_reducers,
            }),
    {
        self.mapper(mapper)
    }

    pub fn reducer<R2: Reducer>(self, reducer: R2) -> (r: JobBuilder<M, R2, P>)
        ensures
            r@ == (JobBuilderView {
                name: self@.name,
                input_paths: self@.input_paths,
                output_path: self@.output_path,
                mapper: self@.mapper,
                reducer: Some(reducer),
                partitioner: self@.partitioner,
                num_map_workers: self@.num_map_workers,
                num_reduce_workers: self@.num_reduce_workers,
                num_reducers: self@.num_reducers,
            }),
    {
        JobBuilder {
            name: self.name,
            input_paths: self.input_paths,
            output_path: self.output_path,
            mapper: self.mapper,
            reducer: Some(reducer),
            partitioner: self.partitioner,
            num_map_workers: self.num_map_workers,
            num_reduce_workers: self.num_reduce_workers,
            num_reducers: self.num_reducers,
        }
    }

    /// Sets a reducer that is shared with other owners.
    pub fn reducer_arc<R2: Reducer + ?Sized>(self, reducer: Arc<R2>) -> (r: JobBuilder<
        M,
        Arc<R2>,
        P,
    >)
        ensures
            r@ == (JobBuilderView {
                name: self@.name,
                input_paths: self@.input_paths,
                output_path: self@.output_path,
                mapper: self@.mapper,
                reducer: Some(reducer),
                partitioner: self@.partitioner,
                num_map_workers: self@.num_map_workers,
                num_reduce_workers: self@.num_reduce_workers,
                num_reducers: self@.num_reducers,
            }),
    {
        self.reducer(reducer)
    }

    pub fn partitioner<P2: Partitioner>(self, partitioner: P2) -> (r: JobBuilder<M, R, P2>)
        ensures
            r@ == (JobBuilderView {
                name: self@.name,
                input_paths: self@.input_paths,
                output_path: self@.output_path,
                mapper: self@.mapper,
                reducer: self@.reducer,
                partitioner: Some(partitioner),
                num_map_workers: self@.num_map_workers,
                num_reduce_workers: self@.num_reduce_workers,
                num_reducers: self@.num_reducers,
            }),
    {
        JobBuilder {
            name: self.name,
            input_paths: self.input_paths,
            output_path: self.output_path,
            mapper: self.mapper,
            reducer: self.reducer,
            partitioner: Some(partitioner),
            num_map_workers: self.num_map_workers,
            num_reduce_workers: self.num_reduce_workers,
            num_reducers: self.num_reducers,
        }
    }

    /// Sets a partitioner that is shared with other owners.
    pub fn partitioner_arc<P2: Partitioner + ?Sized>(self, partitioner: Arc<P2>) -> (r: JobBuilder<
        M,
        R,
        Arc<P2>,
    >)
        ensures
            r@ == (JobBuilderView {
                name: self@.name,
                input_paths: self@.input_paths,
                output_path: self@.output_path,
                mapper: self@.mapper,
                reducer: self@.reducer,
                partitioner: Some(partitioner),
                num_map_workers: self@.num_map_workers,
                num_reduce_workers: self@.num_reduce_workers,
                num_reducers: self@.num_reducers,
            }),
    {
        self.partitioner(partitioner)
    }

    pub fn num_map_workers(self, workers: usize) -> (r: Self)
        ensures
            r@ == (JobBuilderView { num_map_workers: workers, ..self@ }),
    {
        JobBuilder { num_map_workers: workers, ..self }
    }

    pub fn num_reduce_workers(self, workers: usize) -> (r: Self)
        ensures
            r@ == (JobBuilderView { num_reduce_workers: workers, ..self@ }),
    {
        JobBuilder { num_reduce_workers: workers, ..self }
    }

    pub fn num_reducers(self, workers: usize) -> (r: Self)
        ensures
            r@ == (JobBuilderView { num_reducers: workers, ..self@ }),
    {
        JobBuilder { num_reducers: workers, ..self }
    }

    /// Checks the configuration and produces the job.
    pub fn build(self) -> (r: Result<Job<M, R, P>, MapReduceError>)
        ensures
            match (r, build_outcome(self@)) {
                (Ok(job), Ok(v)) => job@ == v,
                (Err(MapReduceError::InvalidJobConfig(m)), Err(msg)) => m@ == msg,
                _ => false,
            },
    {
        let JobBuilder {
            name,
            input_paths,
            output_path,
            mapper,
            reducer,
            partitioner,
            num_map_workers,
            num_reduce_workers,
            num_reducers,
        } = self;
        let name = match name {
            Some(n) => {
                if blank(n.as_str()) {
                    return Err(MapReduceError::InvalidJobConfig(text("job name must not be empty")));
                }
                n
            },
            None => {
                return Err(MapReduceError::InvalidJobConfig(text("job name must not be empty")));
            },
        };
        if input_paths.len() == 0 {
            return Err(MapReduceError::InvalidJobConfig(text("at least one input is required")));
        }
        let output_path = match output_path {
            Some(p) => p,
            None => {
                return Err(MapReduceError::InvalidJobConfig(text("output path is required")));
            },
        };
        let mapper = match mapper {
            Some(m) => m,
            None => {
                return Err(MapReduceError::InvalidJobConfig(text("mapper is required")));
            },
        };
        let reducer = match reducer {
            Some(m) => m,
            None => {
                return Err(MapReduceError::InvalidJobConfig(text("reducer is required")));
            },
        };
        if num_map_workers == 0 {
            return Err(
                MapReduceError::InvalidJobConfig(
                    text("number of map workers must be greater than zero"),
                ),
            );
        }
        if num_reduce_workers == 0 {
            return Err(
                MapReduceError::InvalidJobConfig(
                    text("number of reduce workers must be greater than zero"),
                ),
            );
        }
        if num_reducers == 0 {
            return Err(
                MapReduceError::InvalidJobConfig(
                    text("number of reducers must be greater than zero"),
                ),
            );
        }
        Ok(
            Job {
                name,
                input_paths,
                output_path,
                mapper,
                reducer,
                partitioner,
                num_map_workers,
                num_reduce_workers,
                num_reducers,
            },
        )
    }
}

} // verus!
