use ipc_channel::ipc;
use script_layout_interface::HTMLCanvasData;

#[test]
fn a_canvas_starts_without_a_renderer() {
    let data: HTMLCanvasData<u32> = HTMLCanvasData::with_dimensions(300, 150);
    assert!(data.ipc_renderer.is_none());
    assert!(!data.has_renderer());
    assert_eq!(data.width, 300);
    assert_eq!(data.height, 150);
}

#[test]
fn attach_then_detach_keeps_the_dimensions() {
    let mut data: HTMLCanvasData<u32> = HTMLCanvasData::with_dimensions(300, 150);
    assert!(data.ipc_renderer.is_none());
    let (sender, receiver) = ipc::channel::<u32>().unwrap();
    data.attach_channel(sender);
    assert!(data.ipc_renderer.is_some());
    assert!(data.has_renderer());
    data.ipc_renderer.as_ref().unwrap().send(7).unwrap();
    assert_eq!(receiver.recv().unwrap(), 7);
    data.detach();
    assert!(data.ipc_renderer.is_none());
    assert!(!data.has_renderer());
    assert_eq!(data.width, 300);
    assert_eq!(data.height, 150);
    assert!(receiver.recv().is_err());
}

#[test]
fn a_second_channel_replaces_the_first() {
    let mut data: HTMLCanvasData<String> = HTMLCanvasData::with_dimensions(640, 480);
    let (sender_a, receiver_a) = ipc::channel::<String>().unwrap();
    let (sender_b, receiver_b) = ipc::channel::<String>().unwrap();
    data.attach_channel(sender_a);
    data.attach_channel(sender_b);
    assert!(data.has_renderer());
    data.ipc_renderer.as_ref().unwrap().send("draw".to_string()).unwrap();
    assert_eq!(receiver_b.recv().unwrap(), "draw");
    assert!(receiver_a.recv().is_err());
    assert_eq!(data.width, 640);
    assert_eq!(data.height, 480);
}

#[test]
fn detach_without_a_channel_changes_nothing() {
    let mut data: HTMLCanvasData<u32> = HTMLCanvasData::with_dimensions(0, 0);
    data.detach();
    assert!(data.ipc_renderer.is_none());
    assert_eq!((data.width, data.height), (0, 0));
}
