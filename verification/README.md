# graphics

Render-graph scheduling and resource bookkeeping for a Vulkan renderer,
verified with Verus.

- `src/render_graph/`: GPU operations and the resources they read and
  write; a dependency graph (`dag`) with a proved scheduler; the render
  graph that links operations to the readers of what they write, culls the
  operations that do not influence the target and orders the rest.
- `src/rendering/`: containers that hand out unique ids (slot maps),
  texture descriptions, buffer ids and buffer writes.
- `src/queue/`, `src/swapchain/`: command-buffer recycling and per-frame
  synchronization objects, over raw Vulkan handles.
- `app/`: the Vulkan calls, the per-thread command pools and the byte
  encoding of buffer writes, which use the library.
