# nolock

Queues and per-thread storage whose behaviour is stated in contracts and
proved with Verus.

* `src/queues` — the queues. Each keeps its shared state in one core value
  with a well-formedness predicate and an exact view of the items it holds:
  `spsc::bounded::Ring`, `spsc::unbounded::Unbounded` (a list of rings) and
  `spsc::unbounded::d_spsc::BasicQueue`, `mpsc::jiffy::Jiffy` (buffers of
  reserved locations), `mpmc::queue::SlotQueue` over the index queues `ncq`
  and `scq`, `mpmc::unbounded::Lscq` (a list of SCQ segments), and
  `mpmc::scq::Queue`, a compact SCQ whose operations walk positions. Sender and
  receiver handles share the core through a `std::sync::Mutex` (taken with
  `try_lock` in a bounded retry loop), so the queues here are not lock-free:
  each operation works on the core while holding the lock. `queues.rs` states the
  first-in-first-out law over any run of enqueues and dequeues;
  `queues/waiting.rs` decides what a task waiting on a queue does next.
* `src/thread_data` — data per thread id, in a `List` or in a `Trie` whose
  levels and entries live in arenas and point at each other by slot.
* `src/shared.rs` — the lock and the trusted wrappers around `std::sync::Mutex`.
* `app` — async front ends (wakers from `futures`) and the lookup of the
  current thread's id; it is ordinary Rust on top of the library.
