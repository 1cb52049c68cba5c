//! Compiled programs and what the cache keeps of them.

use vstd::prelude::*;
use wasmer::{Engine, EngineId, Module, Store};

verus! {

/// `wasmer::Module`, a compiled program. Nothing is known of its contents.
#[verifier::external_type_specification]
#[verifier::external_body]
pub struct ExModule(wasmer::Module);

/// `wasmer::Engine`, from which execution contexts are built.
#[verifier::external_type_specification]
#[verifier::external_body]
pub struct ExEngine(wasmer::Engine);

/// `wasmer::EngineId`, the number by which an engine is known.
#[verifier::external_type_specification]
#[verifier::external_body]
pub struct ExEngineId(wasmer::EngineId);

/// `wasmer::Store`, an execution context.
#[verifier::external_type_specification]
#[verifier::external_body]
pub struct ExStore(wasmer::Store);

/// `<wasmer::Module as Clone>::clone`. A module is a shared handle on one
/// compiled artifact; its clone is a handle on the same artifact, and
/// `wasmer` itself compares the two as equal.
#[verifier::external_body]
fn share_module(module: &Module) -> (copy: Module)
    ensures
        copy == *module,
{
    module.clone()
}

/// The number by which an engine is known: what `wasmer::Engine::id`
/// returns.
pub uninterp spec fn engine_id(engine: Engine) -> EngineId;

/// `<wasmer::Engine as Clone>::clone`. The clone is known by the same
/// number as the engine it was made from. It is not the same value: inside,
/// each clone is numbered anew.
#[verifier::external_body]
fn share_engine(engine: &Engine) -> (copy: Engine)
    ensures
        engine_id(copy) == engine_id(*engine),
{
    engine.clone()
}

/// The engine that a store runs on: what `wasmer::Store::engine` returns.
pub uninterp spec fn store_engine(store: Store) -> Engine;

/// `wasmer::Store::new`: a store of its own on the given engine. Every call
/// makes another store, so no more is said of the result. The first call in
/// a process installs the trap handlers of `wasmer`, which fails only where
/// the operating system refuses them.
#[verifier::external_body]
fn new_store(engine: Engine) -> (store: Store)
    ensures
        store_engine(store) == engine,
{
    Store::new(engine)
}

/// A compiled program as the cache holds it.
pub struct CacheItem {
    pub module: Module,
    pub engine: Engine,
    pub asm_size_estimate_kb: u32,
}

/// What a cached program is known by: the compiled module, the number of
/// the engine that contexts for it are built on, and the estimate of its
/// size in kilobytes.
pub struct Program {
    pub module: Module,
    pub engine: EngineId,
    pub asm_size_estimate_kb: u32,
}

impl View for CacheItem {
    type V = Program;

    open spec fn view(&self) -> Program {
        Program {
            module: self.module,
            engine: engine_id(self.engine),
            asm_size_estimate_kb: self.asm_size_estimate_kb,
        }
    }
}

impl CacheItem {
    /// A program of `asm_size_estimate_kb` kilobytes, compiled as `module`,
    /// to run on `engine`.
    pub fn new(module: Module, engine: Engine, asm_size_estimate_kb: u32) -> (item: CacheItem)
        ensures
            item.module == module,
            item.engine == engine,
            item.asm_size_estimate_kb == asm_size_estimate_kb,
    {
        CacheItem { module, engine, asm_size_estimate_kb }
    }

    /// A handle on the program and a fresh context to run it in, on an
    /// engine of the same number.
    pub fn data(&self) -> (pair: (Module, Store))
        ensures
            pair.0 == self.module,
            engine_id(store_engine(pair.1)) == engine_id(self.engine),
    {
        (share_module(&self.module), new_store(share_engine(&self.engine)))
    }

    /// A second holder of the same program.
    pub fn share(&self) -> (copy: CacheItem)
        ensures
            copy.module == self.module,
            engine_id(copy.engine) == engine_id(self.engine),
            copy.asm_size_estimate_kb == self.asm_size_estimate_kb,
    {
        CacheItem {
            module: share_module(&self.module),
            engine: share_engine(&self.engine),
            asm_size_estimate_kb: self.asm_size_estimate_kb,
        }
    }
}

} // verus!
