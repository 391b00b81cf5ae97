# allocator-memfd-secret

An allocator with backing memory in a `memfd_secret`.

The file is cut into maps, each twice as long as the one before it. A request is looked for in the
smallest map that is longer than it and then in the larger ones, and a map is established when it
is first needed and all the smaller ones are there. In each map lives a heap of
`linked_list_allocator`.

- `src/` decides: which call has to be made to the system next, which map and which block serve a
  request, and which heap a block goes back to. All of it is verified. `src/model.rs` says what an
  arena is and does, and `src/arena.rs` does it. `src/laws.rs` proves what follows for each step, and
  `src/ledger.rs` for all blocks that are in the hands of callers, whatever happens to an arena.
  `src/process.rs` is about the memory that a process may lock, and arenas that share it.
  `src/heap.rs` holds what is taken on trust of `linked_list_allocator`.
- `app/` acts: it makes the calls, shares an arena between threads, and implements `GlobalAlloc`
  and the `Allocator` of `allocator-api2`.

```rust
let file = SecretArena::new().unwrap();

let boxed_value = Box::new_in(5, &file);
let slice = Box::<[MaybeUninit<u8>], _>::new_zeroed_slice_in(1024, &file);
```
