use taurine::adrenaline::{wake, PIT_CHANNEL_0, PIT_COMMAND};
use taurine::dopamine::Memento;
use taurine::PortWrite;

#[test]
fn wake_programs_the_timer_for_a_hundred_hertz() {
    let writes = wake();
    assert_eq!(
        writes,
        [
            PortWrite { port: PIT_COMMAND, value: 0x36 },
            PortWrite { port: PIT_CHANNEL_0, value: 0x9B },
            PortWrite { port: PIT_CHANNEL_0, value: 0x2E },
        ]
    );
    let divisor = writes[1].value as u32 + 256 * writes[2].value as u32;
    assert_eq!(divisor, 1193182 / 100);
}

struct RamDisk {
    blocks: Vec<[u8; 512]>,
}

impl Memento for RamDisk {
    fn recall(&mut self, block: u64, buf: &mut [u8; 512]) {
        *buf = self.blocks[block as usize];
    }

    fn remember(&mut self, block: u64, buf: &[u8; 512]) {
        self.blocks[block as usize] = *buf;
    }
}

#[test]
fn a_memento_is_used_through_the_trait() {
    let mut disk = RamDisk { blocks: vec![[0u8; 512]; 4] };
    let device: &mut dyn Memento = &mut disk;
    device.remember(2, &[7u8; 512]);
    let mut buf = [0u8; 512];
    device.recall(2, &mut buf);
    assert_eq!(buf, [7u8; 512]);
}
