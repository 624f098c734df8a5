# dromon

The verified core of Dromon, a voxel-terrain engine, and of its terminal monitor.

`src/` is the library, verified with Verus:

- `text` — characters, trimming, splitting, decimal numbers.
- `log_parser` — decoding of the messages the engine sends to the monitor.
- `app_state` — the monitor's state, message routing, tabs and key commands.
- `tabs::logs`, `tabs::profiling` (call trees), `tabs::world` — the state of each tab
  and the text it shows.
- `world_stats` — the terrain statistics the engine sends, and the proof that the
  monitor decodes exactly what was encoded.
- `device_select`, `device_memory`, `gpu_allocator` — GPU and queue selection, and the
  first-fit sub-allocator of device memory.
- `frame_loop` — the frame and acquire-semaphore rings, the skip of an empty swapchain,
  the blits of a mip chain.
- `inputs` — the keyboard state of a frame.
- `terrain` — loaded chunks, deferred destruction of replaced meshes, the re-meshing
  batch in flight, batch installation.

`app/` is the program around it: the monitor's socket, terminal drawing and float
formatting, and the engine side: queries of the Vulkan driver and the window system, device memory
blocks, the meshing workers' channel and the frame budget.
