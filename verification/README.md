# xrpl_amm

A concentrated-liquidity AMM engine for XRPL / Bedrock smart contracts, with
the analysis helpers that replay and price its positions off chain. The
library is written in Verus: every function in `src/` carries a contract, and
Verus proves each body against it.

## Layout

- `src/` — the verified library.
  - Fixed-point and tick math: `fixed`, `math` (the contract's table of
    per-bit factors), `price_math` and `quant_math` (factors derived by
    squaring, with the partial-product or the saturating Q64.64 multiply),
    `tick_order` (why the tick → price maps rise with the tick).
  - Contract state and entry points: `tick`, `tick_bitmap`, `position`,
    `swap`, `pool`, `oracle`, `hooks`, `codec` (state encoding), `host`
    (host-side blob framing), `manager`, `types`.
  - Routing and ABI: `adapter`, `execution_adapter`, `skeleton`, `abi`.
  - Analysis helpers: `fees`, `replay`, `amm`, `decimal`, `labels`,
    `intent`, `xrpl_types`.
- `tests/` — tests run against the compiled library.
- `app/` — the program around the library: the HTTP analysis service, the
  XRPL client, the floating-point risk models, the contract's exported
  functions and host bindings, and the ABI wrapper generator.

## What is proved, besides each function's contract

- Encoding and decoding the contract state (and each of its parts) gives
  back what was encoded; the same for manager call parameters, hook ids and
  host blobs.
- `sqrt_price_at_tick` never falls as the tick rises and rises strictly
  above a small price; searching for a tick's price finds that tick (or,
  below that price, the highest tick sharing it), exactly for every tick
  within half the range.
- A swap never moves the price against its direction, never pays less than
  the minimum it was given, and a paused pool changes nothing.
- Minting out of range leaves the active liquidity alone, and burning what
  was minted restores it.
- Crossing a tick twice at the same accumulators restores it, and flipping
  a tick's bitmap bit twice restores the bitmap and every search over it.
- A swap step selling token1 never charges more input plus fee than the
  amount left, and the token amounts of a range never fall as its
  liquidity grows.
- Mint and burn need room only for the entries their maps do not hold yet
  (`pool::has_room_for` checks it).
- Admin calls dispatched through the manager (`manager::native_dispatch_u32`
  and `native_dispatch_u64`) are refused to anyone but the pool's owner or
  manager.  The pool's own exported admin functions (`pool::set_pause`,
  `set_protocol_fee`, `collect_protocol`, `set_manager`) take no sender and
  check none, as in the contract they come from.
- The oracle writes at most one observation per block.
- Replaying swap events in batches is replaying them all at once; fees of a
  fresh range and of a range without growth follow from the growth
  accounting.
- Both swap routes apply the same checks and answer alike.
